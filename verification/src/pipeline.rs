//! The whole labeling on a sequential backend: the orchestrator says what to
//! do, and every action is performed here, one unit of work after the other.

use crate::column::{columns_labeled, label_columns};
use crate::component::{lemma_connected_is_joined, lemma_flat_merge_is_labeling};
use crate::forest::{cell_ok, descends, is_flat, is_forest, same_tree};
use crate::grid::{
    connected, grid_edges, horizontal_edges, is_labeling, lemma_descends_keeps_mask,
    lemma_grid_edges_split, lemma_horizontal_edges_next, lemma_horizontal_edges_start,
    round_edges, vertical_edges,
};
use crate::linkage::{
    edges_in, joined, lemma_joined_monotone, lemma_joined_reflexive, lemma_merges_compose, merges,
};
use crate::merge::{lemma_pow2_fits, lemma_round_geometry, merge_round, round_merged, span_at};
use crate::orchestrator::{actions_left, next_phase, Action, Event, Orchestrator, Phase};
use crate::raster::Raster;
use crate::relabel::{lemma_relabeled_all, relabel, relabeled};
use crate::store::{initial_labels, lemma_initial_labels, LabelError, LabelStore};
use vstd::arithmetic::power2::{is_pow2, lemma2_to64};
use vstd::prelude::*;

verus! {

/// What holds of the labels when a phase is about to start: which edges of
/// the grid the forest has been merged along since it was filled from the
/// mask.
pub open spec fn phase_holds(mask: Seq<bool>, width: int, phase: Phase, labels: Seq<i32>) -> bool {
    let first = initial_labels(mask);
    match phase {
        Phase::Upload => true,
        Phase::Column => labels == first,
        Phase::Merge { step, .. } => merges(
            first,
            vertical_edges(mask, width, width).union(
                horizontal_edges(mask, width, span_at(step as nat)),
            ),
            labels,
        ),
        Phase::Relabel => merges(first, grid_edges(mask, width), labels),
        Phase::Download => merges(first, grid_edges(mask, width), labels) && is_flat(labels),
        Phase::Finished => merges(first, grid_edges(mask, width), labels) && is_flat(labels),
        Phase::Aborted => false,
    }
}

/// The labels after the action of a phase has been performed on them.
pub open spec fn performed(
    mask: Seq<bool>,
    width: int,
    height: int,
    phase: Phase,
    labels: Seq<i32>,
) -> Seq<i32> {
    match phase {
        Phase::Upload => initial_labels(mask),
        Phase::Column => columns_labeled(labels, width, height, width),
        Phase::Merge { step, units } => round_merged(
            labels,
            width,
            height,
            step as nat,
            units as int,
        ),
        Phase::Relabel => relabeled(labels, width * height),
        _ => labels,
    }
}

/// Once the labels are filled, every phase starts from a forest in which no
/// label lies above the cell's own index, every background pixel holds `-1`
/// and every foreground pixel a label that is not negative.
pub proof fn lemma_background_kept(mask: Seq<bool>, width: int, phase: Phase, labels: Seq<i32>)
    requires
        mask.len() <= i32::MAX,
        phase != Phase::Upload,
        phase_holds(mask, width, phase, labels),
    ensures
        is_forest(labels),
        descends(initial_labels(mask), labels),
        labels.len() == mask.len(),
        forall|i: int| 0 <= i < mask.len() && !mask[i] ==> #[trigger] labels[i] == -1,
        forall|i: int| 0 <= i < mask.len() && mask[i] ==> 0 <= #[trigger] labels[i] <= i,
{
    let first = initial_labels(mask);
    lemma_initial_labels(mask);
    assert forall|i: int| 0 <= i < mask.len() implies (if mask[i] {
        0 <= #[trigger] labels[i] <= i
    } else {
        labels[i] == -1
    }) by {
        assert(labels[i] <= first[i] && (labels[i] < 0 <==> first[i] < 0));
        assert(cell_ok(labels, i));
    }
}

/// A run that stops between two phases leaves components that are not yet
/// whole, never components that are wrong: two cells that share a tree are
/// connected in the image.
pub proof fn lemma_never_wrongly_merged(
    mask: Seq<bool>,
    width: int,
    phase: Phase,
    labels: Seq<i32>,
    i: int,
    j: int,
)
    requires
        mask.len() <= i32::MAX,
        width > 0,
        phase != Phase::Upload,
        phase_holds(mask, width, phase, labels),
        same_tree(labels, i, j),
    ensures
        connected(mask, width, i, j),
{
    let first = initial_labels(mask);
    let all = grid_edges(mask, width);
    lemma_initial_labels(mask);
    lemma_grid_edges_split(mask, width);
    match phase {
        Phase::Column => {
            lemma_joined_reflexive(first, all, i);
        },
        Phase::Merge { step, .. } => {
            let some = vertical_edges(mask, width, width).union(
                horizontal_edges(mask, width, span_at(step as nat)),
            );
            assert(joined(first, some, i, j));
            assert(some.subset_of(all));
            lemma_joined_monotone(first, some, all, i, j);
        },
        _ => {
            assert(joined(first, all, i, j));
        },
    }
    lemma_connected_is_joined(mask, width, i, j);
}

/// Performs the action of the orchestrator's current phase on the labels.
/// Afterwards the labels are what the next phase starts from.
pub fn perform(orchestrator: &Orchestrator, raster: &Raster, labels: &mut Vec<i32>)
    requires
        orchestrator.wf(),
        raster.wf(),
        raster.width == orchestrator.width,
        raster.height == orchestrator.height,
        phase_holds(raster.mask(), raster.width as int, orchestrator.phase, old(labels)@),
    ensures
        final(labels)@ == performed(
            raster.mask(),
            raster.width as int,
            raster.height as int,
            orchestrator.phase,
            old(labels)@,
        ),
        phase_holds(
            raster.mask(),
            raster.width as int,
            next_phase(raster.width as int, orchestrator.phase, Event::Completed),
            final(labels)@,
        ),
        orchestrator.phase != Phase::Upload ==> descends(old(labels)@, final(labels)@),
{
    let width = raster.width;
    let height = raster.height;
    let ghost mask = raster.mask();
    let ghost first = initial_labels(mask);
    let ghost previous = labels@;
    let ghost columns = vertical_edges(mask, width as int, width as int);
    proof {
        lemma_initial_labels(mask);
        if orchestrator.phase != Phase::Upload {
            lemma_descends_keeps_mask(first, previous);
        }
        assert(width > 0) by {
            reveal(is_pow2);
        }
        lemma_grid_edges_split(mask, width as int);
        lemma_horizontal_edges_start(mask, width as int);
    }
    match orchestrator.action() {
        Action::Upload => {
            match LabelStore::initialize(raster) {
                Ok(store) => {
                    *labels = store.labels;
                },
                Err(_) => {},
            }
        },
        Action::Column { units } => {
            label_columns(labels, width, height, units);
            proof {
                lemma_round_geometry(width as int, 0);
                lemma2_to64();
                assert(columns.union(horizontal_edges(mask, width as int, 1)) =~= columns);
            }
        },
        Action::Merge { step, units } => {
            merge_round(labels, width, height, step, units);
            proof {
                let span = span_at(step as nat);
                let done = columns.union(horizontal_edges(mask, width as int, span));
                let more = round_edges(mask, width as int, span, units as int);
                lemma_round_geometry(width as int, step as nat);
                lemma_pow2_fits((step + 1) as nat);
                lemma_horizontal_edges_next(mask, width as int, span);
                assert(edges_in(first, done));
                assert(edges_in(first, more));
                lemma_merges_compose(first, done, previous, more, labels@);
                assert(done.union(more) =~= columns.union(
                    horizontal_edges(mask, width as int, 2 * span),
                ));
            }
        },
        Action::Relabel { units } => {
            relabel(labels, units);
            proof {
                let all = grid_edges(mask, width as int);
                let none = Set::<(int, int)>::empty();
                lemma_relabeled_all(previous);
                assert(edges_in(first, all));
                assert(edges_in(first, none));
                lemma_merges_compose(first, all, previous, none, labels@);
                assert(all.union(none) =~= all);
            }
        },
        Action::Download => {},
        Action::Finish => {},
        Action::Abort => {},
    }
}

/// Labels the connected components of an image: every background pixel gets
/// `-1`, every foreground pixel the index of the first pixel of its
/// component. Refuses an image whose width is not a power of two, and then
/// one with more pixels than a label can number.
pub fn label_components(raster: &Raster) -> (result: Result<Vec<i32>, LabelError>)
    requires
        raster.wf(),
    ensures
        result is Ok <==> is_pow2(raster.width as int) && raster.pixels@.len() <= i32::MAX,
        !is_pow2(raster.width as int) ==> result == Err::<Vec<i32>, LabelError>(
            LabelError::WidthNotPowerOfTwo,
        ),
        is_pow2(raster.width as int) && raster.pixels@.len() > i32::MAX ==> result == Err::<
            Vec<i32>,
            LabelError,
        >(LabelError::TooManyPixels),
        result is Ok ==> is_labeling(raster.mask(), raster.width as int, result->Ok_0@),
{
    let mut orchestrator = match Orchestrator::new(raster.width, raster.height) {
        Ok(made) => made,
        Err(error) => {
            return Err(error);
        },
    };
    let mut labels: Vec<i32> = Vec::new();
    loop
        invariant
            raster.wf(),
            orchestrator.wf(),
            raster.width == orchestrator.width,
            raster.height == orchestrator.height,
            phase_holds(raster.mask(), raster.width as int, orchestrator.phase, labels@),
        decreases actions_left(orchestrator.width as int, orchestrator.phase),
    {
        match orchestrator.action() {
            Action::Finish => {
                proof {
                    lemma_flat_merge_is_labeling(raster.mask(), raster.width as int, labels@);
                }
                return Ok(labels);
            },
            _ => {},
        }
        perform(&orchestrator, raster, &mut labels);
        orchestrator = orchestrator.advance(Event::Completed);
    }
}

} // verus!
