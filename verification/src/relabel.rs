//! The path-compression relabeler: one unit of work per cell, which follows
//! the cell's parent chain to its root and writes the root back as the
//! cell's label.

use crate::forest::{
    cell_ok, descends, find_root, flattened, is_flat, is_foreground, is_forest,
    lemma_descends_transitive, lemma_repoint_keeps_roots, lemma_root_is_root, root,
};
use crate::linkage::{lemma_same_roots_merge_nothing, merges};
use vstd::prelude::*;

verus! {

/// The array in which each of the first `units` cells holds the root of its
/// tree; the cells after them keep their labels.
pub open spec fn relabeled(l: Seq<i32>, units: int) -> Seq<i32> {
    Seq::new(
        l.len(),
        |i: int|
            if i < units {
                root(l, i) as i32
            } else {
                l[i]
            },
    )
}

/// Relabeling the first cells of a forest keeps the forest, lets no label
/// grow and changes no root.
pub proof fn lemma_relabeled_keeps_roots(l: Seq<i32>, units: int)
    requires
        is_forest(l),
        0 <= units <= l.len(),
    ensures
        is_forest(relabeled(l, units)),
        descends(l, relabeled(l, units)),
        forall|k: int| root(relabeled(l, units), k) == root(l, k),
    decreases units,
{
    if units == 0 {
        assert(relabeled(l, units) =~= l);
    } else {
        let last = units - 1;
        let m = relabeled(l, last);
        lemma_relabeled_keeps_roots(l, last);
        assert(cell_ok(l, last));
        if is_foreground(l, last) {
            lemma_root_is_root(l, last);
            let r = root(l, last);
            assert(root(m, r) == root(m, last));
            lemma_repoint_keeps_roots(m, last, r);
            assert(relabeled(l, units) =~= m.update(last, r as i32));
            lemma_descends_transitive(l, m, relabeled(l, units));
        } else {
            assert(relabeled(l, units) =~= m);
        }
    }
}

/// Relabeling every cell flattens the forest.
pub proof fn lemma_relabeled_all(l: Seq<i32>)
    requires
        is_forest(l),
    ensures
        relabeled(l, l.len() as int) == flattened(l),
        is_forest(flattened(l)),
        is_flat(flattened(l)),
        merges(l, Set::<(int, int)>::empty(), flattened(l)),
{
    assert(relabeled(l, l.len() as int) =~= flattened(l));
    lemma_relabeled_keeps_roots(l, l.len() as int);
    let f = flattened(l);
    assert forall|i: int| 0 <= i < f.len() implies #[trigger] f[i] as int == root(f, i) by {
        assert(cell_ok(l, i));
        if is_foreground(l, i) {
            lemma_root_is_root(l, i);
        }
    }
    lemma_same_roots_merge_nothing(l, f);
}

/// Relabeling a second time changes nothing.
pub proof fn lemma_relabel_idempotent(l: Seq<i32>)
    requires
        is_forest(l),
    ensures
        flattened(flattened(l)) == flattened(l),
{
    lemma_relabeled_all(l);
    assert(flattened(flattened(l)) =~= flattened(l));
}

/// After relabeling, the label of every foreground cell is a root: the cell
/// that it names holds its own index.
pub proof fn lemma_relabeled_labels_are_roots(l: Seq<i32>, i: int)
    requires
        is_forest(l),
        is_foreground(l, i),
    ensures
        is_foreground(flattened(l), flattened(l)[i] as int),
        flattened(l)[flattened(l)[i] as int] == flattened(l)[i],
{
    lemma_root_is_root(l, i);
}

/// One unit of the relabeler: writes the root of cell `index` into the cell.
/// A background cell keeps its `-1`.
pub fn relabel_unit(labels: &mut Vec<i32>, index: usize)
    requires
        is_forest(old(labels)@),
        index < old(labels).len(),
    ensures
        final(labels)@ == old(labels)@.update(
            index as int,
            root(old(labels)@, index as int) as i32,
        ),
{
    let r = find_root(labels, index);
    proof {
        assert(cell_ok(labels@, index as int));
        if is_foreground(labels@, index as int) {
            lemma_root_is_root(labels@, index as int);
        }
    }
    if r >= 0 {
        labels[index] = r;
    } else {
        assert(labels@ =~= old(labels)@.update(index as int, r));
    }
}

/// Runs the first `units` units of the relabeler, one after the other.
pub fn relabel(labels: &mut Vec<i32>, units: usize)
    requires
        is_forest(old(labels)@),
        units <= old(labels).len(),
    ensures
        final(labels)@ == relabeled(old(labels)@, units as int),
{
    let ghost first = labels@;
    let mut index: usize = 0;
    assert(labels@ =~= relabeled(first, 0));
    while index < units
        invariant
            index <= units <= first.len(),
            is_forest(first),
            labels@ == relabeled(first, index as int),
        decreases units - index,
    {
        proof {
            lemma_relabeled_keeps_roots(first, index as int);
        }
        relabel_unit(labels, index);
        assert(labels@ =~= relabeled(first, index + 1));
        index = index + 1;
    }
}

} // verus!
