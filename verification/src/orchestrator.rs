//! The dispatch orchestrator: decides which phase runs next, with how many
//! units of work and with which step index. It does no work itself; whoever
//! drives it performs each action on a compute backend, waits until all of
//! its units are done, and reports back.

use crate::merge::{lemma_pow2_fits, lemma_round_geometry, units_at};
use crate::store::LabelError;
use vstd::arithmetic::power2::{is_pow2, lemma2_to64, lemma_pow2_pos};
use vstd::bits::lemma_usize_shr_is_div;
use vstd::prelude::*;

verus! {

/// Where a run stands.
#[derive(Clone, Copy, Debug, PartialEq, Eq, Structural)]
pub enum Phase {
    /// The labels are about to be filled from the image and handed to the
    /// backend.
    Upload,
    /// The column-local labeler is about to run.
    Column,
    /// Round `step` of the merge reducer is about to run, with `units` units.
    Merge { step: u32, units: usize },
    /// The relabeler is about to run.
    Relabel,
    /// The labels are about to be fetched from the backend.
    Download,
    /// The run is complete.
    Finished,
    /// The backend failed; the run is over and has no result.
    Aborted,
}

/// What the driver has to do next.
#[derive(Clone, Copy, Debug, PartialEq, Eq, Structural)]
pub enum Action {
    /// Fill the labels from the image and hand them to the backend.
    Upload,
    /// Run the column-local labeler for the columns before `units`.
    Column { units: usize },
    /// Run the units before `units` of round `step` of the merge reducer.
    Merge { step: u32, units: usize },
    /// Run the relabeler for the cells before `units`.
    Relabel { units: usize },
    /// Fetch the labels from the backend.
    Download,
    /// Nothing is left to do.
    Finish,
    /// Give up and report the failure.
    Abort,
}

/// What the driver reports once an action is over.
#[derive(Clone, Copy, Debug, PartialEq, Eq, Structural)]
pub enum Event {
    /// All units of the action are done and their writes are visible.
    Completed,
    /// The backend could not perform the action.
    Failed,
}

/// The phase that follows `phase` in a grid of the given width once `event`
/// is reported.
pub open spec fn next_phase(width: int, phase: Phase, event: Event) -> Phase {
    match phase {
        Phase::Finished => Phase::Finished,
        Phase::Aborted => Phase::Aborted,
        _ => match event {
            Event::Failed => Phase::Aborted,
            Event::Completed => match phase {
                Phase::Upload => Phase::Column,
                Phase::Column => if width / 2 != 0 {
                    Phase::Merge { step: 0, units: (width / 2) as usize }
                } else {
                    Phase::Relabel
                },
                Phase::Merge { step, units } => if units / 2 != 0 {
                    Phase::Merge { step: (step + 1) as u32, units: (units / 2) as usize }
                } else {
                    Phase::Relabel
                },
                Phase::Relabel => Phase::Download,
                Phase::Download => Phase::Finished,
                Phase::Finished => Phase::Finished,
                Phase::Aborted => Phase::Aborted,
            },
        },
    }
}

/// The action that a phase asks for in a grid of the given dimensions.
pub open spec fn action_of(width: int, height: int, phase: Phase) -> Action {
    match phase {
        Phase::Upload => Action::Upload,
        Phase::Column => Action::Column { units: width as usize },
        Phase::Merge { step, units } => Action::Merge { step, units },
        Phase::Relabel => Action::Relabel { units: (width * height) as usize },
        Phase::Download => Action::Download,
        Phase::Finished => Action::Finish,
        Phase::Aborted => Action::Abort,
    }
}

/// A merge phase stands at a round that has work: its number of units is the
/// width shifted right by one more than its step index, and is not zero.
pub open spec fn phase_fits(width: int, phase: Phase) -> bool {
    match phase {
        Phase::Merge { step, units } => units == units_at(width, step as nat) && units > 0,
        _ => true,
    }
}

/// The number of actions that are left before the run is over.
pub open spec fn actions_left(width: int, phase: Phase) -> int {
    match phase {
        Phase::Upload => width + 5,
        Phase::Column => width + 4,
        Phase::Merge { units, .. } => units + 3,
        Phase::Relabel => 2,
        Phase::Download => 1,
        Phase::Finished => 0,
        Phase::Aborted => 0,
    }
}

/// Tells whether `width` is a power of two.
pub fn is_power_of_two(width: usize) -> (yes: bool)
    ensures
        yes == is_pow2(width as int),
{
    if width == 0 {
        reveal(is_pow2);
        return false;
    }
    let mut rest: usize = width;
    while rest % 2 == 0
        invariant
            rest > 0,
            is_pow2(rest as int) == is_pow2(width as int),
        decreases rest,
    {
        reveal(is_pow2);
        rest = rest / 2;
    }
    reveal(is_pow2);
    rest == 1
}

/// The state of one run over a grid of `width` columns and `height` rows.
#[derive(Clone, Copy, Debug)]
pub struct Orchestrator {
    pub width: usize,
    pub height: usize,
    pub phase: Phase,
}

impl Orchestrator {
    /// The width is a power of two, every cell can be numbered by a label,
    /// and the phase fits the width.
    pub open spec fn wf(&self) -> bool {
        &&& is_pow2(self.width as int)
        &&& self.width * self.height <= i32::MAX
        &&& phase_fits(self.width as int, self.phase)
    }

    /// Starts a run. Refuses a width that is not a power of two, and then a
    /// grid with more cells than a label can number.
    pub fn new(width: usize, height: usize) -> (made: Result<Orchestrator, LabelError>)
        ensures
            made is Ok <==> is_pow2(width as int) && width * height <= i32::MAX,
            !is_pow2(width as int) ==> made == Err::<Orchestrator, LabelError>(
                LabelError::WidthNotPowerOfTwo,
            ),
            is_pow2(width as int) && width * height > i32::MAX ==> made == Err::<
                Orchestrator,
                LabelError,
            >(LabelError::TooManyPixels),
            made is Ok ==> made->Ok_0.wf() && made->Ok_0.width == width && made->Ok_0.height
                == height && made->Ok_0.phase == Phase::Upload,
    {
        if !is_power_of_two(width) {
            return Err(LabelError::WidthNotPowerOfTwo);
        }
        match width.checked_mul(height) {
            Some(cells) => {
                if cells > i32::MAX as usize {
                    return Err(LabelError::TooManyPixels);
                }
            },
            None => {
                assert(width * height > usize::MAX);
                return Err(LabelError::TooManyPixels);
            },
        }
        Ok(Orchestrator { width, height, phase: Phase::Upload })
    }

    /// The action that the current phase asks for.
    pub fn action(&self) -> (action: Action)
        requires
            self.wf(),
        ensures
            action == action_of(self.width as int, self.height as int, self.phase),
    {
        match self.phase {
            Phase::Upload => Action::Upload,
            Phase::Column => Action::Column { units: self.width },
            Phase::Merge { step, units } => Action::Merge { step, units },
            Phase::Relabel => Action::Relabel { units: self.width * self.height },
            Phase::Download => Action::Download,
            Phase::Finished => Action::Finish,
            Phase::Aborted => Action::Abort,
        }
    }

    /// Moves on once the driver reports how the current action ended. After
    /// a failure the run is aborted for good; a finished run stays finished.
    pub fn advance(self, event: Event) -> (next: Orchestrator)
        requires
            self.wf(),
        ensures
            next.wf(),
            next.width == self.width,
            next.height == self.height,
            next.phase == next_phase(self.width as int, self.phase, event),
            actions_left(next.width as int, next.phase) < actions_left(
                self.width as int,
                self.phase,
            ) || self.phase == Phase::Finished || self.phase == Phase::Aborted,
    {
        let phase = match self.phase {
            Phase::Finished => Phase::Finished,
            Phase::Aborted => Phase::Aborted,
            _ => match event {
                Event::Failed => Phase::Aborted,
                Event::Completed => match self.phase {
                    Phase::Upload => Phase::Column,
                    Phase::Column => {
                        let units = self.width >> 1;
                        proof {
                            lemma_usize_shr_is_div(self.width, 1usize);
                            lemma2_to64();
                            lemma_round_geometry(self.width as int, 0);
                        }
                        if units != 0 {
                            Phase::Merge { step: 0, units }
                        } else {
                            Phase::Relabel
                        }
                    },
                    Phase::Merge { step, units } => {
                        let half = units >> 1;
                        proof {
                            lemma_usize_shr_is_div(units, 1usize);
                            lemma2_to64();
                            lemma_round_geometry(self.width as int, step as nat);
                            lemma_round_geometry(self.width as int, (step + 1) as nat);
                            if half != 0 {
                                lemma_pow2_pos((step + 1) as nat);
                                lemma_pow2_fits((step + 1) as nat);
                            }
                        }
                        if half != 0 {
                            Phase::Merge { step: step + 1, units: half }
                        } else {
                            Phase::Relabel
                        }
                    },
                    Phase::Relabel => Phase::Download,
                    Phase::Download => Phase::Finished,
                    Phase::Finished => Phase::Finished,
                    Phase::Aborted => Phase::Aborted,
                },
            },
        };
        Orchestrator { width: self.width, height: self.height, phase }
    }
}

} // verus!
