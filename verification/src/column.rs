//! The column-local labeler: one unit of work per column, which walks the
//! column from top to bottom and makes the trees of every two foreground
//! cells that lie one above the other into one.

use crate::forest::{is_forest, unite, united};
use crate::grid::{
    column_edges, in_mask, lemma_cell_coordinates, lemma_column_edges_next,
    lemma_column_edges_start, lemma_descends_keeps_mask, lemma_vertical_edges_next, mask_of,
    vertical_edges,
};
use crate::linkage::{
    edges_in, lemma_merges_compose, lemma_same_roots_merge_nothing, lemma_united_merges, merges,
};
use vstd::prelude::*;

verus! {

/// The labels after one column has been walked down to the row before
/// `rows`: from the second row on, each cell of the column is united with
/// the cell directly above it.
pub open spec fn column_labeled(l: Seq<i32>, width: int, column: int, rows: int) -> Seq<i32>
    decreases rows,
{
    if rows <= 1 {
        l
    } else {
        let lower = (rows - 1) * width + column;
        united(column_labeled(l, width, column, rows - 1), lower - width, lower)
    }
}

/// The labels after the columns before `units` have been walked, from the
/// left to the right.
pub open spec fn columns_labeled(l: Seq<i32>, width: int, height: int, units: int) -> Seq<i32>
    decreases units,
{
    if units <= 0 {
        l
    } else {
        column_labeled(columns_labeled(l, width, height, units - 1), width, units - 1, height)
    }
}

/// Walking a column merges the forest along the vertical edges of that
/// column, and along nothing else.
pub proof fn lemma_column_labeled_merges(
    l: Seq<i32>,
    width: int,
    height: int,
    column: int,
    rows: int,
)
    requires
        is_forest(l),
        l.len() == width * height,
        0 <= column < width,
        rows <= height || rows <= 1,
    ensures
        merges(
            l,
            column_edges(mask_of(l), width, column, rows),
            column_labeled(l, width, column, rows),
        ),
    decreases rows,
{
    let mask = mask_of(l);
    if rows <= 1 {
        lemma_column_edges_start(mask, width, column, rows);
        lemma_same_roots_merge_nothing(l, l);
    } else {
        let row = rows - 1;
        let lower = row * width + column;
        let upper = lower - width;
        let previous = column_labeled(l, width, column, row);
        let done = column_edges(mask, width, column, row);
        lemma_column_labeled_merges(l, width, height, column, row);
        assert(0 <= upper && lower < width * height) by (nonlinear_arith)
            requires
                1 <= row < height,
                0 <= column < width,
                lower == row * width + column,
                upper == lower - width,
        ;
        lemma_descends_keeps_mask(l, previous);
        lemma_column_edges_next(mask, width, column, row);
        assert(mask_of(previous)[lower] == mask[lower]);
        assert(mask_of(previous)[upper] == mask[upper]);
        if in_mask(mask, upper) && in_mask(mask, lower) {
            lemma_united_merges(previous, upper, lower);
            assert(edges_in(l, done));
            assert(edges_in(l, set![(upper, lower)]));
            lemma_merges_compose(
                l,
                done,
                previous,
                set![(upper, lower)],
                united(previous, upper, lower),
            );
        } else {
            assert(united(previous, upper, lower) == previous);
        }
    }
}

/// Walking the columns before `units` merges the forest along the vertical
/// edges of those columns, and along nothing else.
pub proof fn lemma_columns_labeled_merge(l: Seq<i32>, width: int, height: int, units: int)
    requires
        is_forest(l),
        l.len() == width * height,
        0 <= units <= width,
    ensures
        merges(
            l,
            vertical_edges(mask_of(l), width, units),
            columns_labeled(l, width, height, units),
        ),
    decreases units,
{
    let mask = mask_of(l);
    if units == 0 {
        assert forall|e: (int, int)| !vertical_edges(mask, width, 0).contains(e) by {
            if width > 0 {
                if e.1 >= 0 {
                    lemma_cell_coordinates(width, e.1);
                }
            } else {
                assert(mask.len() == 0);
            }
        }
        assert(vertical_edges(mask, width, 0) =~= Set::<(int, int)>::empty());
        lemma_same_roots_merge_nothing(l, l);
    } else {
        let column = units - 1;
        let previous = columns_labeled(l, width, height, column);
        lemma_columns_labeled_merge(l, width, height, column);
        lemma_column_labeled_merges(previous, width, height, column, height);
        lemma_descends_keeps_mask(l, previous);
        lemma_vertical_edges_next(mask, width, height, column);
        let done = vertical_edges(mask, width, column);
        let more = column_edges(mask, width, column, height);
        assert(edges_in(l, done));
        assert(edges_in(l, more));
        lemma_merges_compose(l, done, previous, more, columns_labeled(l, width, height, units));
    }
}

/// Labels one column: walks it from top to bottom and unites every
/// foreground cell with a foreground cell directly above it. Afterwards two
/// cells share a tree exactly if they did before or a run of such pairs in
/// this column leads from the tree of one to the tree of the other.
pub fn column_unit(labels: &mut Vec<i32>, width: usize, height: usize, column: usize)
    requires
        is_forest(old(labels)@),
        old(labels).len() == width * height,
        column < width,
    ensures
        final(labels)@ == column_labeled(
            old(labels)@,
            width as int,
            column as int,
            height as int,
        ),
        merges(
            old(labels)@,
            column_edges(mask_of(old(labels)@), width as int, column as int, height as int),
            final(labels)@,
        ),
{
    let ghost first = labels@;
    let mut row: usize = 1;
    while row < height
        invariant
            1 <= row,
            row <= height || row == 1,
            column < width,
            is_forest(first),
            first.len() == width * height,
            labels.len() == first.len(),
            is_forest(labels@),
            labels@ == column_labeled(first, width as int, column as int, row as int),
        decreases height - row,
    {
        assert(row * width + column < width * height) by (nonlinear_arith)
            requires
                row < height,
                column < width,
        ;
        assert(row * width >= width) by (nonlinear_arith)
            requires
                row >= 1,
        ;
        let lower = row * width + column;
        let upper = lower - width;
        unite(labels, upper, lower);
        row = row + 1;
        proof {
            lemma_column_labeled_merges(
                first,
                width as int,
                height as int,
                column as int,
                row as int,
            );
        }
    }
    proof {
        lemma_column_labeled_merges(
            first,
            width as int,
            height as int,
            column as int,
            height as int,
        );
    }
}

/// Labels the columns before `units`, one unit after the other. Afterwards
/// two cells share a tree exactly if they did before or a walk along the
/// vertical edges of those columns leads from the tree of one to the tree of
/// the other.
pub fn label_columns(labels: &mut Vec<i32>, width: usize, height: usize, units: usize)
    requires
        is_forest(old(labels)@),
        old(labels).len() == width * height,
        units <= width,
    ensures
        final(labels)@ == columns_labeled(
            old(labels)@,
            width as int,
            height as int,
            units as int,
        ),
        merges(
            old(labels)@,
            vertical_edges(mask_of(old(labels)@), width as int, units as int),
            final(labels)@,
        ),
{
    let ghost first = labels@;
    let mut column: usize = 0;
    while column < units
        invariant
            column <= units <= width,
            is_forest(first),
            first.len() == width * height,
            labels.len() == first.len(),
            is_forest(labels@),
            labels@ == columns_labeled(first, width as int, height as int, column as int),
        decreases units - column,
    {
        column_unit(labels, width, height, column);
        column = column + 1;
        proof {
            lemma_columns_labeled_merge(first, width as int, height as int, column as int);
        }
    }
    proof {
        lemma_columns_labeled_merge(first, width as int, height as int, units as int);
    }
}

} // verus!
