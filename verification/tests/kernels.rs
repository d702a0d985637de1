use ccl_8k::column::{column_unit, label_columns};
use ccl_8k::forest::find_root;
use ccl_8k::merge::{half_span, merge_round, merge_unit};
use ccl_8k::raster::{Raster, Rgba};
use ccl_8k::relabel::{relabel, relabel_unit};
use ccl_8k::store::{LabelError, LabelStore};

fn initial(cells: &[u8]) -> Vec<i32> {
    cells.iter().enumerate().map(|(i, &c)| if c != 0 { i as i32 } else { -1 }).collect()
}

fn roots(labels: &Vec<i32>) -> Vec<i32> {
    (0..labels.len()).map(|i| find_root(labels, i)).collect()
}

#[test]
fn store_is_filled_from_the_alpha_channel() {
    let pixels = vec![
        Rgba { red: 1, green: 2, blue: 3, alpha: 0 },
        Rgba { red: 0, green: 0, blue: 0, alpha: 9 },
        Rgba { red: 0, green: 0, blue: 0, alpha: 255 },
        Rgba { red: 9, green: 9, blue: 9, alpha: 0 },
    ];
    let raster = Raster::new(2, 2, pixels).expect("four pixels");
    let store = LabelStore::initialize(&raster).expect("a small image");
    assert_eq!(store.width, 2);
    assert_eq!(store.height, 2);
    assert_eq!(store.read(), &vec![-1, 1, 2, -1]);
}

#[test]
fn store_accepts_any_width() {
    let raster = Raster::new(3, 1, vec![Rgba { red: 0, green: 0, blue: 0, alpha: 1 }; 3])
        .expect("three pixels");
    let store: Result<LabelStore, LabelError> = LabelStore::initialize(&raster);
    assert_eq!(store.expect("a small image").labels, vec![0, 1, 2]);
}

#[test]
fn column_unit_joins_vertical_runs_of_its_column_only() {
    let cells = [
        1, 1, 
        1, 1, 
        0, 1, 
        1, 0,
        1, 1,
    ];
    let mut labels = initial(&cells);
    column_unit(&mut labels, 2, 5, 0);
    assert_eq!(roots(&labels), vec![0, 1, 0, 3, -1, 5, 6, -1, 6, 9]);
    column_unit(&mut labels, 2, 5, 1);
    assert_eq!(roots(&labels), vec![0, 1, 0, 1, -1, 1, 6, -1, 6, 9]);
}

#[test]
fn label_columns_stops_after_the_given_units() {
    let cells = [1u8; 8];
    let mut labels = initial(&cells);
    label_columns(&mut labels, 4, 2, 2);
    assert_eq!(roots(&labels), vec![0, 1, 2, 3, 0, 1, 6, 7]);
    label_columns(&mut labels, 4, 2, 4);
    assert_eq!(roots(&labels), vec![0, 1, 2, 3, 0, 1, 2, 3]);
}

#[test]
fn column_pass_never_raises_a_label_and_keeps_the_background() {
    let cells = [1, 0, 1, 1, 1, 1, 0, 1, 1, 1, 1, 1, 0, 0, 1, 1];
    let before = initial(&cells);
    let mut labels = before.clone();
    label_columns(&mut labels, 4, 4, 4);
    for i in 0..16 {
        assert!(labels[i] <= before[i]);
        assert_eq!(labels[i] == -1, before[i] == -1);
    }
}

#[test]
fn half_span_is_a_power_of_two() {
    assert_eq!(half_span(0), 1);
    assert_eq!(half_span(1), 2);
    assert_eq!(half_span(5), 32);
    assert_eq!(half_span(12), 4096);
}

#[test]
fn merge_unit_joins_across_its_boundary_only() {
    let mut labels = initial(&[1u8; 8]);
    merge_unit(&mut labels, 8, 1, 0, 1);
    assert_eq!(roots(&labels), vec![0, 1, 2, 2, 4, 5, 6, 7]);
    merge_unit(&mut labels, 8, 1, 0, 3);
    assert_eq!(roots(&labels), vec![0, 1, 2, 2, 4, 5, 6, 6]);
    merge_unit(&mut labels, 8, 1, 1, 1);
    assert_eq!(roots(&labels), vec![0, 1, 2, 2, 4, 5, 5, 5]);
    merge_unit(&mut labels, 8, 1, 2, 0);
    assert_eq!(roots(&labels), vec![0, 1, 2, 2, 2, 5, 5, 5]);
}

#[test]
fn merge_unit_skips_pairs_with_a_background_cell() {
    let cells = [
        1, 1, 
        1, 0, 
        0, 1,
    ];
    let mut labels = initial(&cells);
    merge_unit(&mut labels, 2, 3, 0, 0);
    assert_eq!(labels, vec![0, 0, 2, -1, -1, 5]);
}

#[test]
fn merge_rounds_double_the_joined_groups() {
    let mut labels = initial(&[1u8; 8]);
    merge_round(&mut labels, 8, 1, 0, 4);
    assert_eq!(roots(&labels), vec![0, 0, 2, 2, 4, 4, 6, 6]);
    merge_round(&mut labels, 8, 1, 1, 2);
    assert_eq!(roots(&labels), vec![0, 0, 0, 0, 4, 4, 4, 4]);
    merge_round(&mut labels, 8, 1, 2, 1);
    assert_eq!(roots(&labels), vec![0, 0, 0, 0, 0, 0, 0, 0]);
}

#[test]
fn merge_round_stops_after_the_given_units() {
    let mut labels = initial(&[1u8; 8]);
    merge_round(&mut labels, 8, 1, 0, 2);
    assert_eq!(roots(&labels), vec![0, 0, 2, 2, 4, 5, 6, 7]);
    merge_round(&mut labels, 8, 1, 0, 0);
    assert_eq!(roots(&labels), vec![0, 0, 2, 2, 4, 5, 6, 7]);
}

#[test]
fn merge_round_never_raises_a_label_and_keeps_the_background() {
    let cells = [1, 1, 0, 1, 1, 1, 1, 0, 1, 1, 1, 1, 0, 1, 1, 1];
    let mut labels = initial(&cells);
    label_columns(&mut labels, 4, 4, 4);
    for (step, units) in [(0u32, 2usize), (1, 1)] {
        let before = labels.clone();
        merge_round(&mut labels, 4, 4, step, units);
        for i in 0..16 {
            assert!(labels[i] <= before[i]);
            assert_eq!(labels[i] == -1, before[i] == -1);
        }
    }
}

#[test]
fn relabel_unit_writes_the_root_into_one_cell() {
    let mut labels = vec![0, 0, 1, -1, 2];
    relabel_unit(&mut labels, 4);
    assert_eq!(labels, vec![0, 0, 1, -1, 0]);
    relabel_unit(&mut labels, 3);
    assert_eq!(labels, vec![0, 0, 1, -1, 0]);
}

#[test]
fn relabel_flattens_the_cells_before_units() {
    let mut labels = vec![0, 0, 1, -1, 2, 4];
    relabel(&mut labels, 3);
    assert_eq!(labels, vec![0, 0, 0, -1, 2, 4]);
    relabel(&mut labels, 6);
    assert_eq!(labels, vec![0, 0, 0, -1, 0, 0]);
}

#[test]
fn relabel_twice_is_relabel_once() {
    let mut labels = vec![0, 0, 1, -1, 2, 5, 5, 6, 4];
    relabel(&mut labels, 9);
    let once = labels.clone();
    relabel(&mut labels, 9);
    assert_eq!(labels, once);
    assert_eq!(once, vec![0, 0, 0, -1, 0, 5, 5, 5, 0]);
}

#[test]
fn relabeled_labels_are_roots() {
    let mut labels = vec![0, 0, 1, -1, 2, 5, 5, 6, 4];
    relabel(&mut labels, 9);
    for i in 0..labels.len() {
        if labels[i] >= 0 {
            let label = labels[i] as usize;
            assert_eq!(labels[label], labels[i]);
        }
    }
}
