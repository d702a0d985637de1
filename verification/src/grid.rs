//! The pixel grid: cell `x + y * width` is the pixel in column `x` of row `y`.
//! Two cells are neighbours where they lie side by side in a row or one
//! above the other in a column, and two foreground cells are connected where
//! a path of foreground neighbours leads from one to the other.

use crate::forest::descends;
use vstd::arithmetic::div_mod::{
    lemma_fundamental_div_mod, lemma_fundamental_div_mod_converse, lemma_mod_bound,
    lemma_mod_mod, lemma_mod_twice,
};
use vstd::prelude::*;

verus! {

/// Cell `q` lies directly below cell `p`.
pub open spec fn is_below(width: int, p: int, q: int) -> bool {
    q == p + width
}

/// Cell `q` lies directly to the right of cell `p`, in the same row.
pub open spec fn is_right_of(width: int, p: int, q: int) -> bool {
    q == p + 1 && q % width != 0
}

/// The two cells are neighbours in a row or in a column.
pub open spec fn adjacent(width: int, p: int, q: int) -> bool {
    is_below(width, p, q) || is_below(width, q, p) || is_right_of(width, p, q) || is_right_of(
        width,
        q,
        p,
    )
}

/// Cell `p` is a foreground pixel of the mask.
pub open spec fn in_mask(mask: Seq<bool>, p: int) -> bool {
    0 <= p < mask.len() && mask[p]
}

/// Cell `k` of the path and the cell after it are neighbours.
pub open spec fn hop_ok(width: int, path: Seq<int>, k: int) -> bool {
    adjacent(width, path[k], path[k + 1])
}

/// A path visits foreground pixels only and moves from each to a neighbour.
pub open spec fn is_path(mask: Seq<bool>, width: int, path: Seq<int>) -> bool {
    &&& path.len() > 0
    &&& forall|k: int| 0 <= k < path.len() ==> in_mask(mask, #[trigger] path[k])
    &&& forall|k: int| 0 <= k < path.len() - 1 ==> #[trigger] hop_ok(width, path, k)
}

/// A path of foreground neighbours leads from pixel `i` to pixel `j`.
pub open spec fn connected(mask: Seq<bool>, width: int, i: int, j: int) -> bool {
    exists|path: Seq<int>| #[trigger]
        is_path(mask, width, path) && path[0] == i && path.last() == j
}

/// The foreground of a label array: the cells that do not hold `-1`.
pub open spec fn mask_of(l: Seq<i32>) -> Seq<bool> {
    Seq::new(l.len(), |i: int| l[i] >= 0)
}

/// The labels that say of every pixel which component it belongs to:
/// `-1` for a background pixel, and for a foreground pixel the first of the
/// pixels that it is connected to.
pub open spec fn is_labeling(mask: Seq<bool>, width: int, labels: Seq<i32>) -> bool {
    &&& labels.len() == mask.len()
    &&& forall|i: int| 0 <= i < mask.len() && !mask[i] ==> #[trigger] labels[i] == -1
    &&& forall|i: int|
        0 <= i < mask.len() && mask[i] ==> connected(mask, width, i, #[trigger] labels[i] as int)
    &&& forall|i: int, j: int| #[trigger] connected(mask, width, i, j) ==> labels[i] <= j
}

/// A vertical edge: two foreground cells, the second directly below the first.
pub open spec fn is_vertical_edge(mask: Seq<bool>, width: int, e: (int, int)) -> bool {
    in_mask(mask, e.0) && in_mask(mask, e.1) && is_below(width, e.0, e.1)
}

/// A horizontal edge: two foreground cells, the second directly to the right
/// of the first.
pub open spec fn is_horizontal_edge(mask: Seq<bool>, width: int, e: (int, int)) -> bool {
    in_mask(mask, e.0) && in_mask(mask, e.1) && is_right_of(width, e.0, e.1)
}

/// The vertical edges of one column whose lower cell lies in a row before
/// `rows`.
pub open spec fn column_edges(mask: Seq<bool>, width: int, column: int, rows: int) -> Set<
    (int, int),
> {
    Set::new(
        |e: (int, int)|
            is_vertical_edge(mask, width, e) && e.1 % width == column && e.1 / width < rows,
    )
}

/// The vertical edges of the columns before `columns`.
pub open spec fn vertical_edges(mask: Seq<bool>, width: int, columns: int) -> Set<(int, int)> {
    Set::new(|e: (int, int)| is_vertical_edge(mask, width, e) && e.1 % width < columns)
}

/// The horizontal edges whose right cell lies in the given column and in a
/// row before `rows`.
pub open spec fn boundary_edges(mask: Seq<bool>, width: int, column: int, rows: int) -> Set<
    (int, int),
> {
    Set::new(
        |e: (int, int)|
            is_horizontal_edge(mask, width, e) && e.1 % width == column && e.1 / width < rows,
    )
}

/// The horizontal edges between the two halves of a group of `2 * span`
/// columns, for the groups before `groups`.
pub open spec fn round_edges(mask: Seq<bool>, width: int, span: int, groups: int) -> Set<
    (int, int),
> {
    Set::new(
        |e: (int, int)|
            is_horizontal_edge(mask, width, e) && (e.1 % width) % (2 * span) == span && (e.1
                % width) / (2 * span) < groups,
    )
}

/// The horizontal edges that lie inside a group of `span` columns.
pub open spec fn horizontal_edges(mask: Seq<bool>, width: int, span: int) -> Set<(int, int)> {
    Set::new(|e: (int, int)| is_horizontal_edge(mask, width, e) && (e.1 % width) % span != 0)
}

/// All edges of the grid: every pair of foreground neighbours.
pub open spec fn grid_edges(mask: Seq<bool>, width: int) -> Set<(int, int)> {
    Set::new(|e: (int, int)| is_vertical_edge(mask, width, e) || is_horizontal_edge(mask, width, e))
}

/// The column and the row of a cell give its index back, and the column lies
/// inside the grid.
pub proof fn lemma_cell_coordinates(width: int, p: int)
    requires
        width > 0,
        p >= 0,
    ensures
        0 <= p % width < width,
        0 <= p / width,
        p == (p / width) * width + p % width,
{
    lemma_fundamental_div_mod(p, width);
    lemma_mod_bound(p, width);
    assert(p / width >= 0) by (nonlinear_arith)
        requires
            width > 0,
            p >= 0,
    ;
    assert(width * (p / width) == (p / width) * width) by (nonlinear_arith);
}

/// The cell in column `x` of row `y` has that column and that row.
pub proof fn lemma_index_coordinates(width: int, x: int, y: int)
    requires
        0 <= x < width,
    ensures
        (y * width + x) % width == x,
        (y * width + x) / width == y,
{
    assert(y * width == width * y) by (nonlinear_arith);
    lemma_fundamental_div_mod_converse(y * width + x, width, y, x);
}

/// Two cells are neighbours exactly if they lie in one row and in columns
/// next to each other, or in one column and in rows next to each other.
pub proof fn lemma_adjacent_by_coordinates(width: int, p: int, q: int)
    requires
        width > 0,
        p >= 0,
        q >= 0,
    ensures
        adjacent(width, p, q) <==> {
            ||| p / width == q / width && (p % width == q % width + 1 || q % width == p % width
                + 1)
            ||| p % width == q % width && (p / width == q / width + 1 || q / width == p / width
                + 1)
        },
{
    let (px, py) = (p % width, p / width);
    let (qx, qy) = (q % width, q / width);
    lemma_cell_coordinates(width, p);
    lemma_cell_coordinates(width, q);
    lemma_index_coordinates(width, px, py);
    lemma_index_coordinates(width, qx, qy);
    assert((py + 1) * width == py * width + width) by (nonlinear_arith);
    assert((qy + 1) * width == qy * width + width) by (nonlinear_arith);
    lemma_index_coordinates(width, px, py + 1);
    lemma_index_coordinates(width, qx, qy + 1);
    if px + 1 < width {
        lemma_index_coordinates(width, px + 1, py);
    } else {
        lemma_index_coordinates(width, 0, py + 1);
    }
    if qx + 1 < width {
        lemma_index_coordinates(width, qx + 1, qy);
    } else {
        lemma_index_coordinates(width, 0, qy + 1);
    }
}

/// A cell of a grid of `height` rows lies in a row before `height`.
pub proof fn lemma_row_in_grid(width: int, height: int, p: int)
    requires
        width > 0,
        0 <= p < width * height,
    ensures
        0 <= p / width < height,
{
    lemma_cell_coordinates(width, p);
    assert(p / width < height) by (nonlinear_arith)
        requires
            width > 0,
            p < width * height,
            p == (p / width) * width + p % width,
            0 <= p % width,
    ;
}

/// Labels that only descend leave the foreground as it was.
pub proof fn lemma_descends_keeps_mask(before: Seq<i32>, after: Seq<i32>)
    requires
        descends(before, after),
    ensures
        mask_of(after) == mask_of(before),
{
    assert forall|i: int| 0 <= i < before.len() implies mask_of(after)[i] == mask_of(before)[i] by {
        assert(after[i] <= before[i] && (after[i] < 0 <==> before[i] < 0));
    }
    assert(mask_of(after) =~= mask_of(before));
}

/// No vertical edge ends in the first row of a column.
pub proof fn lemma_column_edges_start(mask: Seq<bool>, width: int, column: int, rows: int)
    requires
        width > 0,
        rows <= 1,
    ensures
        column_edges(mask, width, column, rows) == Set::<(int, int)>::empty(),
{
    assert forall|e: (int, int)| !column_edges(mask, width, column, rows).contains(e) by {
        if is_vertical_edge(mask, width, e) {
            lemma_cell_coordinates(width, e.1);
            assert(e.1 / width >= 1) by (nonlinear_arith)
                requires
                    e.1 >= width,
                    width > 0,
                    e.1 == (e.1 / width) * width + e.1 % width,
                    e.1 % width < width,
            ;
        }
    }
    assert(column_edges(mask, width, column, rows) =~= Set::<(int, int)>::empty());
}

/// Going one row down a column adds the edge into that row, if both its
/// cells are foreground, and nothing else.
pub proof fn lemma_column_edges_next(mask: Seq<bool>, width: int, column: int, row: int)
    requires
        0 <= column < width,
        1 <= row,
    ensures
        ({
            let lower = row * width + column;
            let upper = lower - width;
            column_edges(mask, width, column, row + 1) == if in_mask(mask, upper) && in_mask(
                mask,
                lower,
            ) {
                column_edges(mask, width, column, row).union(set![(upper, lower)])
            } else {
                column_edges(mask, width, column, row)
            }
        }),
{
    let lower = row * width + column;
    let upper = lower - width;
    let next = column_edges(mask, width, column, row + 1);
    let grown = if in_mask(mask, upper) && in_mask(mask, lower) {
        column_edges(mask, width, column, row).union(set![(upper, lower)])
    } else {
        column_edges(mask, width, column, row)
    };
    lemma_index_coordinates(width, column, row);
    assert forall|e: (int, int)| next.contains(e) == grown.contains(e) by {
        if is_vertical_edge(mask, width, e) {
            lemma_cell_coordinates(width, e.1);
        }
    }
    assert(next =~= grown);
}

/// Going one column to the right adds the edges of that column, and nothing
/// else.
pub proof fn lemma_vertical_edges_next(mask: Seq<bool>, width: int, height: int, column: int)
    requires
        0 <= column < width,
        mask.len() == width * height,
    ensures
        vertical_edges(mask, width, column + 1) == vertical_edges(mask, width, column).union(
            column_edges(mask, width, column, height),
        ),
{
    let next = vertical_edges(mask, width, column + 1);
    let grown = vertical_edges(mask, width, column).union(
        column_edges(mask, width, column, height),
    );
    assert forall|e: (int, int)| next.contains(e) == grown.contains(e) by {
        if is_vertical_edge(mask, width, e) {
            lemma_row_in_grid(width, height, e.1);
        }
    }
    assert(next =~= grown);
}

/// Before the first row no edge crosses a boundary between two columns.
pub proof fn lemma_boundary_edges_start(mask: Seq<bool>, width: int, column: int)
    requires
        width > 0,
    ensures
        boundary_edges(mask, width, column, 0) == Set::<(int, int)>::empty(),
{
    assert forall|e: (int, int)| !boundary_edges(mask, width, column, 0).contains(e) by {
        if is_horizontal_edge(mask, width, e) {
            lemma_cell_coordinates(width, e.1);
        }
    }
    assert(boundary_edges(mask, width, column, 0) =~= Set::<(int, int)>::empty());
}

/// Going one row down a boundary adds the edge across it in that row, if
/// both its cells are foreground, and nothing else.
pub proof fn lemma_boundary_edges_next(mask: Seq<bool>, width: int, column: int, row: int)
    requires
        1 <= column < width,
        0 <= row,
    ensures
        ({
            let right = row * width + column;
            let left = right - 1;
            boundary_edges(mask, width, column, row + 1) == if in_mask(mask, left) && in_mask(
                mask,
                right,
            ) {
                boundary_edges(mask, width, column, row).union(set![(left, right)])
            } else {
                boundary_edges(mask, width, column, row)
            }
        }),
{
    let right = row * width + column;
    let left = right - 1;
    let next = boundary_edges(mask, width, column, row + 1);
    let grown = if in_mask(mask, left) && in_mask(mask, right) {
        boundary_edges(mask, width, column, row).union(set![(left, right)])
    } else {
        boundary_edges(mask, width, column, row)
    };
    lemma_index_coordinates(width, column, row);
    assert forall|e: (int, int)| next.contains(e) == grown.contains(e) by {
        if is_horizontal_edge(mask, width, e) {
            lemma_cell_coordinates(width, e.1);
        }
    }
    assert(next =~= grown);
}

/// Before the first group a round has no edge.
pub proof fn lemma_round_edges_start(mask: Seq<bool>, width: int, span: int)
    requires
        width > 0,
        span > 0,
    ensures
        round_edges(mask, width, span, 0) == Set::<(int, int)>::empty(),
{
    assert forall|e: (int, int)| !round_edges(mask, width, span, 0).contains(e) by {
        if is_horizontal_edge(mask, width, e) {
            lemma_cell_coordinates(width, e.1);
            lemma_cell_coordinates(2 * span, e.1 % width);
        }
    }
    assert(round_edges(mask, width, span, 0) =~= Set::<(int, int)>::empty());
}

/// Going one group to the right adds the edges across the boundary in the
/// middle of that group, and nothing else.
pub proof fn lemma_round_edges_next(
    mask: Seq<bool>,
    width: int,
    height: int,
    span: int,
    group: int,
)
    requires
        width > 0,
        span > 0,
        0 <= group,
        group * (2 * span) + span < width,
        mask.len() == width * height,
    ensures
        round_edges(mask, width, span, group + 1) == round_edges(mask, width, span, group).union(
            boundary_edges(mask, width, group * (2 * span) + span, height),
        ),
{
    let column = group * (2 * span) + span;
    let next = round_edges(mask, width, span, group + 1);
    let grown = round_edges(mask, width, span, group).union(
        boundary_edges(mask, width, column, height),
    );
    lemma_index_coordinates(2 * span, span, group);
    assert forall|e: (int, int)| next.contains(e) == grown.contains(e) by {
        if is_horizontal_edge(mask, width, e) {
            lemma_row_in_grid(width, height, e.1);
            lemma_cell_coordinates(width, e.1);
            lemma_cell_coordinates(2 * span, e.1 % width);
        }
    }
    assert(next =~= grown);
}

/// Inside single columns there is no horizontal edge.
pub proof fn lemma_horizontal_edges_start(mask: Seq<bool>, width: int)
    ensures
        horizontal_edges(mask, width, 1) == Set::<(int, int)>::empty(),
{
    assert(horizontal_edges(mask, width, 1) =~= Set::<(int, int)>::empty());
}

/// A column stands at the start of a group of `2 * span` columns exactly if
/// it stands at the start of a group of `span` columns and not in the middle
/// of the larger group.
pub proof fn lemma_group_starts(c: int, span: int)
    requires
        c >= 0,
        span > 0,
    ensures
        c % (2 * span) != 0 <==> c % span != 0 || c % (2 * span) == span,
{
    let r = c % (2 * span);
    lemma_cell_coordinates(2 * span, c);
    lemma_mod_mod(c, span, 2);
    assert(span * 2 == 2 * span);
    assert(r % span == c % span);
    if r < span {
        lemma_fundamental_div_mod_converse(r, span, 0, r);
    } else {
        lemma_fundamental_div_mod_converse(r, span, 1, r - span);
    }
}

/// Doubling the groups adds the edges between the two halves of every new
/// group, and nothing else.
pub proof fn lemma_horizontal_edges_next(mask: Seq<bool>, width: int, span: int)
    requires
        span > 0,
        width > 0,
        width % (2 * span) == 0,
    ensures
        horizontal_edges(mask, width, 2 * span) == horizontal_edges(mask, width, span).union(
            round_edges(mask, width, span, width / (2 * span)),
        ),
{
    let next = horizontal_edges(mask, width, 2 * span);
    let grown = horizontal_edges(mask, width, span).union(
        round_edges(mask, width, span, width / (2 * span)),
    );
    lemma_fundamental_div_mod(width, 2 * span);
    assert forall|e: (int, int)| next.contains(e) == grown.contains(e) by {
        if is_horizontal_edge(mask, width, e) {
            let c = e.1 % width;
            lemma_cell_coordinates(width, e.1);
            lemma_group_starts(c, span);
            assert(width == (2 * span) * (width / (2 * span)));
            lemma_row_in_grid(2 * span, width / (2 * span), c);
        }
    }
    assert(next =~= grown);
}

/// The edges of the grid are the vertical edges of all columns and the
/// horizontal edges inside the one group that spans the grid.
pub proof fn lemma_grid_edges_split(mask: Seq<bool>, width: int)
    requires
        width > 0,
    ensures
        grid_edges(mask, width) == vertical_edges(mask, width, width).union(
            horizontal_edges(mask, width, width),
        ),
{
    let whole = grid_edges(mask, width);
    let parts = vertical_edges(mask, width, width).union(horizontal_edges(mask, width, width));
    assert forall|e: (int, int)| whole.contains(e) == parts.contains(e) by {
        if is_vertical_edge(mask, width, e) || is_horizontal_edge(mask, width, e) {
            lemma_cell_coordinates(width, e.1);
            lemma_mod_twice(e.1, width);
        }
    }
    assert(whole =~= parts);
}

} // verus!
