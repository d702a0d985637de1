use ccl_8k::orchestrator::{is_power_of_two, Action, Event, Orchestrator, Phase};
use ccl_8k::pipeline::perform;
use ccl_8k::raster::{Raster, Rgba};
use ccl_8k::store::LabelError;

fn actions(width: usize, height: usize) -> Vec<Action> {
    let mut orchestrator = Orchestrator::new(width, height).expect("a width that is a power of two");
    let mut all = Vec::new();
    loop {
        let action = orchestrator.action();
        all.push(action);
        if action == Action::Finish {
            return all;
        }
        orchestrator = orchestrator.advance(Event::Completed);
    }
}

#[test]
fn powers_of_two_are_told_apart() {
    for width in [1usize, 2, 4, 8, 1024, 8192, 1 << 31] {
        assert!(is_power_of_two(width));
    }
    for width in [0usize, 3, 5, 6, 7, 12, 1000, 8191, 8193, usize::MAX] {
        assert!(!is_power_of_two(width));
    }
}

#[test]
fn run_over_eight_columns() {
    assert_eq!(
        actions(8, 2),
        vec![
            Action::Upload,
            Action::Column { units: 8 },
            Action::Merge { step: 0, units: 4 },
            Action::Merge { step: 1, units: 2 },
            Action::Merge { step: 2, units: 1 },
            Action::Relabel { units: 16 },
            Action::Download,
            Action::Finish,
        ]
    );
}

#[test]
fn width_four_takes_two_merge_rounds() {
    let rounds = actions(4, 4).iter().filter(|action| matches!(action, Action::Merge { .. })).count();
    assert_eq!(rounds, 2);
}

#[test]
fn width_8192_takes_thirteen_merge_rounds() {
    let all = actions(8192, 8192);
    let rounds: Vec<(u32, usize)> = all
        .iter()
        .filter_map(|action| match action {
            Action::Merge { step, units } => Some((*step, *units)),
            _ => None,
        })
        .collect();
    assert_eq!(rounds.len(), 13);
    for (index, &(step, units)) in rounds.iter().enumerate() {
        assert_eq!(step as usize, index);
        assert_eq!(units, 8192 >> (index + 1));
    }
    assert_eq!(all[all.len() - 3], Action::Relabel { units: 8192 * 8192 });
}

#[test]
fn single_column_skips_the_merge_phase() {
    assert_eq!(
        actions(1, 3),
        vec![
            Action::Upload,
            Action::Column { units: 1 },
            Action::Relabel { units: 3 },
            Action::Download,
            Action::Finish,
        ]
    );
}

#[test]
fn run_is_refused_for_a_bad_width() {
    assert_eq!(Orchestrator::new(0, 4).err(), Some(LabelError::WidthNotPowerOfTwo));
    assert_eq!(Orchestrator::new(12, 4).err(), Some(LabelError::WidthNotPowerOfTwo));
    assert_eq!(Orchestrator::new(12, usize::MAX).err(), Some(LabelError::WidthNotPowerOfTwo));
}

#[test]
fn run_is_refused_for_too_many_cells() {
    assert_eq!(Orchestrator::new(1 << 16, 1 << 15).err(), Some(LabelError::TooManyPixels));
    assert_eq!(Orchestrator::new(2, usize::MAX).err(), Some(LabelError::TooManyPixels));
    assert!(Orchestrator::new(1 << 16, (1 << 15) - 1).is_ok());
    assert!(Orchestrator::new(1, i32::MAX as usize).is_ok());
    assert_eq!(Orchestrator::new(1, i32::MAX as usize + 1).err(), Some(LabelError::TooManyPixels));
}

#[test]
fn failure_aborts_the_run_for_good() {
    let start = Orchestrator::new(4, 4).expect("a width that is a power of two");
    let merging = start.advance(Event::Completed).advance(Event::Completed);
    assert_eq!(merging.phase, Phase::Merge { step: 0, units: 2 });
    let aborted = merging.advance(Event::Failed);
    assert_eq!(aborted.phase, Phase::Aborted);
    assert_eq!(aborted.action(), Action::Abort);
    assert_eq!(aborted.advance(Event::Completed).phase, Phase::Aborted);
    assert_eq!(start.advance(Event::Failed).phase, Phase::Aborted);
}

#[test]
fn finished_run_stays_finished() {
    let mut orchestrator = Orchestrator::new(2, 1).expect("a width that is a power of two");
    for _ in 0..6 {
        orchestrator = orchestrator.advance(Event::Completed);
    }
    assert_eq!(orchestrator.phase, Phase::Finished);
    assert_eq!(orchestrator.advance(Event::Completed).phase, Phase::Finished);
    assert_eq!(orchestrator.advance(Event::Failed).phase, Phase::Finished);
    assert_eq!((orchestrator.width, orchestrator.height), (2, 1));
}

#[test]
fn labels_only_descend_from_phase_to_phase() {
    let cells = [
        1u8, 1, 0, 1, 
        0, 1, 0, 1, 
        1, 1, 0, 1, 
        1, 0, 1, 1,
    ];
    let pixels: Vec<Rgba> =
        cells.iter().map(|&c| Rgba { red: 0, green: 0, blue: 0, alpha: c }).collect();
    let raster = Raster::new(4, 4, pixels).expect("sixteen pixels");
    let mut orchestrator = Orchestrator::new(4, 4).expect("a width that is a power of two");
    let mut labels: Vec<i32> = Vec::new();
    perform(&orchestrator, &raster, &mut labels);
    orchestrator = orchestrator.advance(Event::Completed);
    assert_eq!(labels, vec![0, 1, -1, 3, -1, 5, -1, 7, 8, 9, -1, 11, 12, -1, 14, 15]);
    while orchestrator.phase != Phase::Finished {
        let before = labels.clone();
        perform(&orchestrator, &raster, &mut labels);
        orchestrator = orchestrator.advance(Event::Completed);
        for i in 0..16 {
            assert!(labels[i] <= before[i]);
            assert_eq!(labels[i] == -1, cells[i] == 0);
        }
    }
    assert_eq!(labels, vec![0, 0, -1, 3, -1, 0, -1, 3, 0, 0, -1, 3, 0, -1, 3, 3]);
}
