//! The hypercube merge reducer: in round `step` the columns stand in groups
//! of `2^(step+1)`, and unit `k` of the round joins the two halves of group
//! `k` by uniting, row by row, the foreground cells that face each other
//! across the boundary in the middle of the group.

use crate::forest::{is_forest, unite, united};
use crate::grid::{
    boundary_edges, in_mask, lemma_boundary_edges_next, lemma_boundary_edges_start,
    lemma_cell_coordinates, lemma_descends_keeps_mask, lemma_index_coordinates,
    lemma_round_edges_next, lemma_round_edges_start, mask_of, round_edges,
};
use crate::linkage::{
    edges_in, lemma_merges_compose, lemma_same_roots_merge_nothing, lemma_united_merges, merges,
};
use vstd::arithmetic::div_mod::{
    lemma_basic_div, lemma_div_denominator, lemma_fundamental_div_mod, lemma_mod_multiples_basic,
};
use vstd::arithmetic::power::pow;
use vstd::arithmetic::power2::{
    is_pow2, is_pow2_equiv, lemma2_to64, lemma_pow2, lemma_pow2_adds, lemma_pow2_pos,
    lemma_pow2_strictly_increases, lemma_pow2_subtracts, lemma_pow2_unfold, pow2,
};
use vstd::bits::lemma_usize_shl_is_mul;
use vstd::layout::unsigned_int_max_values;
use vstd::prelude::*;

verus! {

/// The number of columns in each half of a group in round `step`.
pub open spec fn span_at(step: nat) -> int {
    pow2(step) as int
}

/// The number of groups, and so of units of work, in round `step`.
pub open spec fn units_at(width: int, step: nat) -> int {
    width / (2 * span_at(step))
}

/// The first column of the right half of group `unit` in round `step`: the
/// unit joins this column with the column before it.
pub open spec fn boundary_at(step: nat, unit: int) -> int {
    unit * (2 * span_at(step)) + span_at(step)
}

/// The boundary of a unit of a round lies inside the grid, and not at its
/// left edge.
pub proof fn lemma_boundary_in_grid(width: int, step: nat, unit: int)
    requires
        0 <= unit < units_at(width, step),
    ensures
        1 <= span_at(step) <= boundary_at(step, unit) < width,
        0 <= unit * (2 * span_at(step)),
        2 * span_at(step) <= width,
{
    lemma_pow2_pos(step);
    let span = span_at(step);
    assert(unit * (2 * span) + span < width && unit * (2 * span) >= 0 && 2 * span <= width)
        by (nonlinear_arith)
        requires
            0 <= unit < width / (2 * span),
            span > 0,
    ;
}

/// A power of two that fits a machine word has an exponent below the
/// word's number of bits.
pub proof fn lemma_pow2_fits(e: nat)
    requires
        pow2(e) <= usize::MAX,
    ensures
        e < usize::BITS <= 64,
{
    unsigned_int_max_values();
    if e > usize::BITS {
        lemma_pow2_strictly_increases(usize::BITS as nat, e);
    }
}

/// How the groups of one round relate to the width of the grid and to the
/// groups of the next round, where the width is a power of two.
pub proof fn lemma_round_geometry(width: int, step: nat)
    requires
        is_pow2(width),
    ensures
        span_at(step) > 0,
        span_at(step + 1) == 2 * span_at(step),
        units_at(width, 0) == width / 2,
        units_at(width, step + 1) == units_at(width, step) / 2,
        units_at(width, step) > 0 <==> 2 * span_at(step) <= width,
        2 * span_at(step) <= width ==> width % (2 * span_at(step)) == 0,
        units_at(width, step) == 1 ==> width == 2 * span_at(step),
{
    let span = span_at(step);
    let group = 2 * span;
    lemma_pow2_pos(step);
    lemma_pow2_unfold(step + 1);
    lemma2_to64();
    is_pow2_equiv(width);
    let log = choose|i: nat| pow(2, i) == width;
    lemma_pow2(log);
    lemma_pow2_pos(log);
    lemma_div_denominator(width, group, 2);
    assert(group * 2 == 2 * span_at(step + 1));
    if group <= width {
        if log < step + 1 {
            lemma_pow2_strictly_increases(log, step + 1);
        }
        let rest = (log - (step + 1)) as nat;
        lemma_pow2_adds(rest, step + 1);
        lemma_mod_multiples_basic(pow2(rest) as int, group);
    }
    lemma_fundamental_div_mod(width, group);
    assert(width / group > 0 <==> group <= width) by (nonlinear_arith)
        requires
            width == group * (width / group) + width % group,
            0 <= width % group < group,
            width > 0,
    ;
    if width / group == 1 {
        assert(group * 1 <= width);
    }
}

/// A grid whose width is `2^log` takes `log` merge rounds: round `step` has
/// work exactly if `step < log`, and then it has `2^(log - 1 - step)` units,
/// half as many as the round before it.
pub proof fn lemma_round_count(width: int, log: nat, step: nat)
    requires
        width == pow2(log),
    ensures
        units_at(width, step) > 0 <==> step < log,
        step < log ==> units_at(width, step) == pow2((log - 1 - step) as nat),
{
    lemma_pow2_unfold(step + 1);
    lemma_pow2_pos(step + 1);
    if step < log {
        lemma_pow2_subtracts(step + 1, log);
    } else {
        if log < step + 1 {
            lemma_pow2_strictly_increases(log, step + 1);
        }
        lemma_pow2_pos(log);
        lemma_basic_div(width, pow2(step + 1) as int);
    }
}

/// The round in which the boundary before a column is joined: the number of
/// times that the column can be halved.
pub open spec fn owner_step(column: int) -> nat
    decreases column,
{
    if column <= 0 || column % 2 != 0 {
        0
    } else {
        owner_step(column / 2) + 1
    }
}

/// The unit of its round that joins the boundary before a column.
pub open spec fn owner_unit(column: int) -> int {
    column / (2 * span_at(owner_step(column)))
}

/// Every boundary between two columns belongs to a unit of a round.
pub proof fn lemma_boundary_has_owner(column: int)
    requires
        column >= 1,
    ensures
        owner_unit(column) >= 0,
        boundary_at(owner_step(column), owner_unit(column)) == column,
    decreases column,
{
    let step = owner_step(column);
    let span = span_at(step);
    lemma_pow2_pos(step);
    lemma2_to64();
    if column % 2 != 0 {
        lemma_cell_coordinates(2, column);
    } else {
        let half = column / 2;
        let below = owner_step(half);
        lemma_boundary_has_owner(half);
        lemma_pow2_unfold(step);
        let unit = owner_unit(half);
        assert(column == unit * (2 * span) + span) by (nonlinear_arith)
            requires
                column == 2 * half,
                half == unit * (2 * span_at(below)) + span_at(below),
                span == 2 * span_at(below),
        ;
        lemma_index_coordinates(2 * span, span, unit);
    }
}

/// The owner of a boundary inside a grid whose width is `2^log` is one of
/// the units that the rounds of that grid run.
pub proof fn lemma_owner_runs(width: int, log: nat, column: int)
    requires
        width == pow2(log),
        1 <= column < width,
    ensures
        owner_step(column) < log,
        0 <= owner_unit(column) < units_at(width, owner_step(column)),
{
    let step = owner_step(column);
    let unit = owner_unit(column);
    let span = span_at(step);
    lemma_boundary_has_owner(column);
    lemma_pow2_pos(step);
    assert(unit * (2 * span) >= 0) by (nonlinear_arith)
        requires
            unit >= 0,
            span > 0,
    ;
    if step >= log {
        if step > log {
            lemma_pow2_strictly_increases(log, step);
        }
    }
    lemma_round_count(width, log, step);
    lemma_pow2(log);
    assert(is_pow2(width)) by {
        is_pow2_equiv(width);
        assert(pow(2, log) == width);
    }
    lemma_round_geometry(width, step);
    lemma_fundamental_div_mod(width, 2 * span);
    assert(unit < width / (2 * span)) by (nonlinear_arith)
        requires
            unit * (2 * span) + span < width,
            width == (2 * span) * (width / (2 * span)),
            span > 0,
    ;
}

/// No boundary belongs to two units: a unit that joins the boundary before a
/// column is that boundary's owner.
pub proof fn lemma_boundary_has_one_owner(step: nat, unit: int, column: int)
    requires
        unit >= 0,
        boundary_at(step, unit) == column,
    ensures
        step == owner_step(column),
        unit == owner_unit(column),
    decreases step,
{
    let span = span_at(step);
    lemma_pow2_pos(step);
    lemma2_to64();
    assert(unit * (2 * span) >= 0) by (nonlinear_arith)
        requires
            unit >= 0,
            span > 0,
    ;
    if step == 0 {
        lemma_index_coordinates(2, 1, unit);
    } else {
        let below = (step - 1) as nat;
        lemma_pow2_unfold(step);
        lemma_pow2_pos(below);
        let half = boundary_at(below, unit);
        assert(column == 2 * half) by (nonlinear_arith)
            requires
                column == unit * (2 * span) + span,
                half == unit * (2 * span_at(below)) + span_at(below),
                span == 2 * span_at(below),
        ;
        assert(unit * (2 * span_at(below)) >= 0) by (nonlinear_arith)
            requires
                unit >= 0,
                span_at(below) > 0,
        ;
        lemma_boundary_has_one_owner(below, unit, half);
    }
    lemma_index_coordinates(2 * span, span, unit);
}

/// Computes `2^step`, the number of columns in each half of a group.
pub fn half_span(step: u32) -> (span: usize)
    requires
        pow2(step as nat) <= usize::MAX,
    ensures
        span == span_at(step as nat),
{
    proof {
        lemma_pow2_fits(step as nat);
        lemma_usize_shl_is_mul(1usize, step as usize);
    }
    1usize << (step as usize)
}

/// The labels after the boundary before column `column` has been walked
/// down to the row before `rows`: in each row, the cell in that column is
/// united with the cell to its left.
pub open spec fn boundary_merged(l: Seq<i32>, width: int, column: int, rows: int) -> Seq<i32>
    decreases rows,
{
    if rows <= 0 {
        l
    } else {
        let right = (rows - 1) * width + column;
        united(boundary_merged(l, width, column, rows - 1), right - 1, right)
    }
}

/// The labels after the units before `units` of round `step` have run, from
/// the left to the right.
pub open spec fn round_merged(l: Seq<i32>, width: int, height: int, step: nat, units: int) -> Seq<
    i32,
>
    decreases units,
{
    if units <= 0 {
        l
    } else {
        boundary_merged(
            round_merged(l, width, height, step, units - 1),
            width,
            boundary_at(step, units - 1),
            height,
        )
    }
}

/// Walking a boundary merges the forest along the horizontal edges across
/// it, and along nothing else.
pub proof fn lemma_boundary_merged_merges(
    l: Seq<i32>,
    width: int,
    height: int,
    column: int,
    rows: int,
)
    requires
        is_forest(l),
        l.len() == width * height,
        1 <= column < width,
        0 <= rows <= height,
    ensures
        merges(
            l,
            boundary_edges(mask_of(l), width, column, rows),
            boundary_merged(l, width, column, rows),
        ),
    decreases rows,
{
    let mask = mask_of(l);
    if rows == 0 {
        lemma_boundary_edges_start(mask, width, column);
        lemma_same_roots_merge_nothing(l, l);
    } else {
        let row = rows - 1;
        let right = row * width + column;
        let left = right - 1;
        let previous = boundary_merged(l, width, column, row);
        let done = boundary_edges(mask, width, column, row);
        lemma_boundary_merged_merges(l, width, height, column, row);
        assert(0 <= left && right < width * height) by (nonlinear_arith)
            requires
                0 <= row < height,
                1 <= column < width,
                right == row * width + column,
                left == right - 1,
        ;
        lemma_descends_keeps_mask(l, previous);
        lemma_boundary_edges_next(mask, width, column, row);
        assert(mask_of(previous)[right] == mask[right]);
        assert(mask_of(previous)[left] == mask[left]);
        if in_mask(mask, left) && in_mask(mask, right) {
            lemma_united_merges(previous, left, right);
            assert(edges_in(l, done));
            assert(edges_in(l, set![(left, right)]));
            lemma_merges_compose(
                l,
                done,
                previous,
                set![(left, right)],
                united(previous, left, right),
            );
        } else {
            assert(united(previous, left, right) == previous);
        }
    }
}

/// Running the units before `units` of a round merges the forest along the
/// horizontal edges across their boundaries, and along nothing else.
pub proof fn lemma_round_merged_merges(
    l: Seq<i32>,
    width: int,
    height: int,
    step: nat,
    units: int,
)
    requires
        is_forest(l),
        0 <= width,
        l.len() == width * height,
        0 <= units <= units_at(width, step),
    ensures
        merges(
            l,
            round_edges(mask_of(l), width, span_at(step), units),
            round_merged(l, width, height, step, units),
        ),
    decreases units,
{
    let mask = mask_of(l);
    let span = span_at(step);
    lemma_pow2_pos(step);
    if units == 0 {
        if width > 0 {
            lemma_round_edges_start(mask, width, span);
        } else {
            assert(mask.len() == 0);
            assert(round_edges(mask, width, span, 0) =~= Set::<(int, int)>::empty());
        }
        lemma_same_roots_merge_nothing(l, l);
    } else {
        let unit = units - 1;
        let previous = round_merged(l, width, height, step, unit);
        lemma_round_merged_merges(l, width, height, step, unit);
        lemma_boundary_in_grid(width, step, unit);
        assert(height >= 0) by (nonlinear_arith)
            requires
                width > 0,
                width * height >= 0,
        ;
        lemma_boundary_merged_merges(previous, width, height, boundary_at(step, unit), height);
        lemma_descends_keeps_mask(l, previous);
        lemma_round_edges_next(mask, width, height, span, unit);
        let done = round_edges(mask, width, span, unit);
        let more = boundary_edges(mask, width, boundary_at(step, unit), height);
        assert(edges_in(l, done));
        assert(edges_in(l, more));
        lemma_merges_compose(l, done, previous, more, round_merged(l, width, height, step, units));
    }
}

/// One unit of a merge round: joins the two halves of group `unit` by
/// uniting, in every row, the two cells on either side of the boundary in
/// the middle of the group where both are foreground. Afterwards two cells
/// share a tree exactly if they did before or a walk across that boundary
/// leads from the tree of one to the tree of the other.
pub fn merge_unit(labels: &mut Vec<i32>, width: usize, height: usize, step: u32, unit: usize)
    requires
        is_forest(old(labels)@),
        old(labels).len() == width * height,
        unit < units_at(width as int, step as nat),
    ensures
        final(labels)@ == boundary_merged(
            old(labels)@,
            width as int,
            boundary_at(step as nat, unit as int),
            height as int,
        ),
        merges(
            old(labels)@,
            boundary_edges(
                mask_of(old(labels)@),
                width as int,
                boundary_at(step as nat, unit as int),
                height as int,
            ),
            final(labels)@,
        ),
{
    let ghost first = labels@;
    proof {
        lemma_boundary_in_grid(width as int, step as nat, unit as int);
    }
    let span = half_span(step);
    let column = unit * (2 * span) + span;
    let mut row: usize = 0;
    while row < height
        invariant
            row <= height,
            1 <= column < width,
            column == boundary_at(step as nat, unit as int),
            is_forest(first),
            first.len() == width * height,
            labels.len() == first.len(),
            is_forest(labels@),
            labels@ == boundary_merged(first, width as int, column as int, row as int),
        decreases height - row,
    {
        assert(row * width + column < width * height) by (nonlinear_arith)
            requires
                row < height,
                column < width,
        ;
        assert(row * width >= 0) by (nonlinear_arith)
            requires
                row >= 0,
                width >= 0,
        ;
        let right = row * width + column;
        let left = right - 1;
        unite(labels, left, right);
        row = row + 1;
        proof {
            lemma_boundary_merged_merges(
                first,
                width as int,
                height as int,
                column as int,
                row as int,
            );
        }
    }
    proof {
        lemma_boundary_merged_merges(
            first,
            width as int,
            height as int,
            column as int,
            height as int,
        );
    }
}

/// One merge round: runs the first `units` units of round `step`, one after
/// the other. Afterwards two cells share a tree exactly if they did before or
/// a walk across the boundaries of those units leads from the tree of one to
/// the tree of the other.
pub fn merge_round(labels: &mut Vec<i32>, width: usize, height: usize, step: u32, units: usize)
    requires
        is_forest(old(labels)@),
        old(labels).len() == width * height,
        units <= units_at(width as int, step as nat),
    ensures
        final(labels)@ == round_merged(
            old(labels)@,
            width as int,
            height as int,
            step as nat,
            units as int,
        ),
        merges(
            old(labels)@,
            round_edges(mask_of(old(labels)@), width as int, span_at(step as nat), units as int),
            final(labels)@,
        ),
{
    let ghost first = labels@;
    let mut unit: usize = 0;
    while unit < units
        invariant
            unit <= units,
            units <= units_at(width as int, step as nat),
            is_forest(first),
            first.len() == width * height,
            labels.len() == first.len(),
            is_forest(labels@),
            labels@ == round_merged(
                first,
                width as int,
                height as int,
                step as nat,
                unit as int,
            ),
        decreases units - unit,
    {
        merge_unit(labels, width, height, step, unit);
        unit = unit + 1;
        proof {
            lemma_round_merged_merges(
                first,
                width as int,
                height as int,
                step as nat,
                unit as int,
            );
        }
    }
    proof {
        lemma_round_merged_merges(first, width as int, height as int, step as nat, units as int);
    }
}

} // verus!
