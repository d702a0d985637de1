//! Components: what the finished labels say about the connectivity of the
//! image, and why.

use crate::forest::{is_flat, lemma_root_is_root, root, same_tree};
use crate::grid::{
    adjacent, connected, grid_edges, hop_ok, in_mask, is_labeling, is_path, mask_of,
};
use crate::linkage::{has_edge, is_walk, joined, linked, merges, step_ok};
use crate::store::{initial_labels, lemma_initial_labels};
use vstd::prelude::*;

verus! {

/// A foreground pixel is connected to itself.
pub proof fn lemma_connected_reflexive(mask: Seq<bool>, width: int, i: int)
    requires
        in_mask(mask, i),
    ensures
        connected(mask, width, i, i),
{
    let path = seq![i];
    assert(is_path(mask, width, path));
}

/// A path read backwards is a path.
pub proof fn lemma_connected_symmetric(mask: Seq<bool>, width: int, i: int, j: int)
    requires
        connected(mask, width, i, j),
    ensures
        connected(mask, width, j, i),
{
    let path = choose|path: Seq<int>| #[trigger]
        is_path(mask, width, path) && path[0] == i && path.last() == j;
    let back = Seq::new(path.len(), |k: int| path[path.len() - 1 - k]);
    assert forall|k: int| 0 <= k < back.len() - 1 implies #[trigger] hop_ok(width, back, k) by {
        assert(hop_ok(width, path, path.len() - 2 - k));
    }
    assert(is_path(mask, width, back));
}

/// Two paths that meet make one path.
pub proof fn lemma_connected_transitive(mask: Seq<bool>, width: int, i: int, j: int, k: int)
    requires
        connected(mask, width, i, j),
        connected(mask, width, j, k),
    ensures
        connected(mask, width, i, k),
{
    let u = choose|path: Seq<int>| #[trigger]
        is_path(mask, width, path) && path[0] == i && path.last() == j;
    let v = choose|path: Seq<int>| #[trigger]
        is_path(mask, width, path) && path[0] == j && path.last() == k;
    let path = u + v.subrange(1, v.len() as int);
    assert forall|n: int| 0 <= n < path.len() implies in_mask(mask, #[trigger] path[n]) by {
        if n < u.len() {
            assert(path[n] == u[n]);
        } else {
            assert(path[n] == v[n - u.len() + 1]);
        }
    }
    assert forall|n: int| 0 <= n < path.len() - 1 implies #[trigger] hop_ok(width, path, n) by {
        if n < u.len() - 1 {
            assert(hop_ok(width, u, n));
        } else {
            let m = n - (u.len() - 1);
            assert(hop_ok(width, v, m));
            assert(path[n] == v[m]);
            assert(path[n + 1] == v[m + 1]);
        }
    }
    assert(is_path(mask, width, path));
}

/// Two foreground neighbours are connected.
pub proof fn lemma_neighbours_connected(mask: Seq<bool>, width: int, p: int, q: int)
    requires
        in_mask(mask, p),
        in_mask(mask, q),
        adjacent(width, p, q),
    ensures
        connected(mask, width, p, q),
{
    let path = seq![p, q];
    assert forall|k: int| 0 <= k < path.len() - 1 implies #[trigger] hop_ok(width, path, k) by {
        assert(path[0] == p && path[1] == q);
    }
    assert(is_path(mask, width, path));
}

/// A walk over the untouched labels along the edges of the grid connects
/// its two ends.
proof fn lemma_walk_connects(mask: Seq<bool>, width: int, w: Seq<int>)
    requires
        mask.len() <= i32::MAX,
        is_walk(initial_labels(mask), grid_edges(mask, width), w),
    ensures
        connected(mask, width, w[0], w.last()),
    decreases w.len(),
{
    let l = initial_labels(mask);
    let e = grid_edges(mask, width);
    lemma_initial_labels(mask);
    assert(mask_of(l)[w[0]] == mask[w[0]]);
    if w.len() == 1 {
        lemma_connected_reflexive(mask, width, w[0]);
    } else {
        let u = w.drop_last();
        assert forall|n: int| 0 <= n < u.len() - 1 implies #[trigger] step_ok(l, e, u, n) by {
            assert(step_ok(l, e, w, n));
        }
        lemma_walk_connects(mask, width, u);
        let n = w.len() - 2;
        assert(step_ok(l, e, w, n));
        let p = w[n];
        let q = w[n + 1];
        assert(linked(l, e, p, q));
        if same_tree(l, p, q) {
            assert(p == q);
        } else {
            assert(has_edge(e, p, q));
            lemma_neighbours_connected(mask, width, p, q);
            lemma_connected_transitive(mask, width, w[0], p, q);
        }
    }
}

/// Two pixels are connected exactly if a walk over the untouched labels
/// along the edges of the grid joins them.
pub proof fn lemma_connected_is_joined(mask: Seq<bool>, width: int, i: int, j: int)
    requires
        mask.len() <= i32::MAX,
    ensures
        connected(mask, width, i, j) <==> joined(
            initial_labels(mask),
            grid_edges(mask, width),
            i,
            j,
        ),
{
    let l = initial_labels(mask);
    let e = grid_edges(mask, width);
    lemma_initial_labels(mask);
    if connected(mask, width, i, j) {
        let path = choose|path: Seq<int>| #[trigger]
            is_path(mask, width, path) && path[0] == i && path.last() == j;
        assert(in_mask(mask, path[0]));
        assert(mask_of(l)[path[0]] == mask[path[0]]);
        assert forall|k: int| 0 <= k < path.len() - 1 implies #[trigger] step_ok(l, e, path, k) by {
            assert(hop_ok(width, path, k));
            assert(in_mask(mask, path[k]));
            assert(in_mask(mask, path[k + 1]));
            assert(has_edge(e, path[k], path[k + 1]));
        }
        assert(is_walk(l, e, path));
    }
    if joined(l, e, i, j) {
        let w = choose|w: Seq<int>| #[trigger] is_walk(l, e, w) && w[0] == i && w.last() == j;
        lemma_walk_connects(mask, width, w);
    }
}

/// A flat forest that merges the untouched labels along all edges of the grid
/// is the labeling of the image.
pub proof fn lemma_flat_merge_is_labeling(mask: Seq<bool>, width: int, labels: Seq<i32>)
    requires
        mask.len() <= i32::MAX,
        merges(initial_labels(mask), grid_edges(mask, width), labels),
        is_flat(labels),
    ensures
        is_labeling(mask, width, labels),
{
    let first = initial_labels(mask);
    let e = grid_edges(mask, width);
    lemma_initial_labels(mask);
    assert forall|i: int| 0 <= i < mask.len() && !mask[i] implies #[trigger] labels[i] == -1 by {
        assert(labels[i] <= first[i] && (labels[i] < 0 <==> first[i] < 0));
        assert(labels[i] as int == root(labels, i));
    }
    assert forall|i: int| 0 <= i < mask.len() && mask[i] implies connected(
        mask,
        width,
        i,
        #[trigger] labels[i] as int,
    ) by {
        assert(labels[i] <= first[i] && (labels[i] < 0 <==> first[i] < 0));
        assert(labels[i] as int == root(labels, i));
        lemma_root_is_root(labels, i);
        let r = root(labels, i);
        assert(same_tree(labels, i, r));
        assert(joined(first, e, i, r));
        lemma_connected_is_joined(mask, width, i, r);
    }
    assert forall|i: int, j: int| #[trigger] connected(mask, width, i, j) implies labels[i]
        <= j by {
        lemma_connected_is_joined(mask, width, i, j);
        assert(joined(first, e, i, j));
        assert(same_tree(labels, i, j));
        lemma_root_is_root(labels, j);
        assert(labels[i] as int == root(labels, i));
    }
}

/// In the labeling of an image two foreground pixels have the same label
/// exactly if they are connected.
pub proof fn lemma_same_label_iff_connected(
    mask: Seq<bool>,
    width: int,
    labels: Seq<i32>,
    i: int,
    j: int,
)
    requires
        is_labeling(mask, width, labels),
        in_mask(mask, i),
        in_mask(mask, j),
    ensures
        labels[i] == labels[j] <==> connected(mask, width, i, j),
{
    let a = labels[i] as int;
    let b = labels[j] as int;
    assert(connected(mask, width, i, a));
    assert(connected(mask, width, j, b));
    if a == b {
        lemma_connected_symmetric(mask, width, j, b);
        lemma_connected_transitive(mask, width, i, a, j);
    }
    if connected(mask, width, i, j) {
        lemma_connected_transitive(mask, width, i, j, b);
        lemma_connected_symmetric(mask, width, i, j);
        lemma_connected_transitive(mask, width, j, i, a);
    }
}

/// An image has one labeling only.
pub proof fn lemma_labeling_unique(mask: Seq<bool>, width: int, one: Seq<i32>, other: Seq<i32>)
    requires
        is_labeling(mask, width, one),
        is_labeling(mask, width, other),
    ensures
        one == other,
{
    assert forall|i: int| 0 <= i < mask.len() implies one[i] == other[i] by {
        if mask[i] {
            assert(connected(mask, width, i, one[i] as int));
            assert(connected(mask, width, i, other[i] as int));
        } else {
            assert(one[i] == -1);
            assert(other[i] == -1);
        }
    }
    assert(one =~= other);
}

} // verus!
