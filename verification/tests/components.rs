use ccl_8k::pipeline::label_components;
use ccl_8k::raster::{Raster, Rgba};
use ccl_8k::store::LabelError;

fn pixel(foreground: bool) -> Rgba {
    Rgba { red: 10, green: 20, blue: 30, alpha: if foreground { 255 } else { 0 } }
}

fn raster_of(width: usize, height: usize, cells: &[u8]) -> Raster {
    let pixels: Vec<Rgba> = cells.iter().map(|&c| pixel(c != 0)).collect();
    Raster::new(width, height, pixels).expect("one pixel per cell")
}

fn labels_of(width: usize, height: usize, cells: &[u8]) -> Vec<i32> {
    label_components(&raster_of(width, height, cells)).expect("a width that is a power of two")
}

#[test]
fn single_pixel_is_its_own_component() {
    let mut cells = [0u8; 16];
    cells[6] = 1;
    let labels = labels_of(4, 4, &cells);
    for (index, &label) in labels.iter().enumerate() {
        if index == 6 {
            assert_eq!(label, 6);
        } else {
            assert_eq!(label, -1);
        }
    }
}

#[test]
fn solid_row_takes_the_label_of_its_leftmost_pixel() {
    let labels = labels_of(4, 1, &[1, 1, 1, 1]);
    assert_eq!(labels, vec![0, 0, 0, 0]);
}

#[test]
fn solid_row_inside_a_taller_image() {
    let cells = [
        1, 1, 1, 1,
        0, 0, 0, 0,
        0, 0, 0, 0,
        0, 0, 0, 0,
    ];
    let labels = labels_of(4, 4, &cells);
    assert_eq!(&labels[0..4], &[0, 0, 0, 0]);
    assert!(labels[4..].iter().all(|&label| label == -1));
}

#[test]
fn two_distant_pixels_keep_their_own_indices() {
    let mut cells = [0u8; 32];
    cells[1] = 1;
    cells[30] = 1;
    let labels = labels_of(8, 4, &cells);
    assert_eq!(labels[1], 1);
    assert_eq!(labels[30], 30);
    assert_ne!(labels[1], labels[30]);
    assert_eq!(labels.iter().filter(|&&label| label >= 0).count(), 2);
}

#[test]
fn checkerboard_has_only_singletons() {
    let width = 8;
    let height = 4;
    let cells: Vec<u8> =
        (0..width * height).map(|i| (((i % width) + (i / width)) % 2 == 0) as u8).collect();
    let labels = labels_of(width, height, &cells);
    for (index, &label) in labels.iter().enumerate() {
        if cells[index] != 0 {
            assert_eq!(label, index as i32);
        } else {
            assert_eq!(label, -1);
        }
    }
}

#[test]
fn full_image_is_one_component_rooted_at_zero() {
    let labels = labels_of(8, 8, &[1u8; 64]);
    assert!(labels.iter().all(|&label| label == 0));
}

#[test]
fn four_components_of_an_eight_by_eight_image() {
    let cells = [
        0, 0, 0, 0, 0, 0, 0, 0,
        0, 1, 1, 0, 1, 1, 1, 0,
        0, 1, 1, 0, 1, 1, 1, 0,
        1, 1, 1, 0, 0, 0, 0, 1,
        0, 1, 1, 1, 0, 0, 0, 1,
        0, 0, 0, 0, 0, 1, 1, 0,
        0, 1, 0, 1, 1, 1, 1, 0,
        0, 1, 1, 1, 0, 0, 0, 0,
    ];
    let expected = vec![
        -1, -1, -1, -1, -1, -1, -1, -1,
        -1,  9,  9, -1, 12, 12, 12, -1,
        -1,  9,  9, -1, 12, 12, 12, -1,
         9,  9,  9, -1, -1, -1, -1, 31,
        -1,  9,  9,  9, -1, -1, -1, 31,
        -1, -1, -1, -1, -1, 45, 45, -1,
        -1, 45, -1, 45, 45, 45, 45, -1,
        -1, 45, 45, 45, -1, -1, -1, -1,
    ];
    assert_eq!(labels_of(8, 8, &cells), expected);
}

#[test]
fn a_spiral_is_one_component() {
    let cells = [
        0, 0, 0, 0, 0, 0, 0, 1,
        1, 1, 1, 1, 1, 1, 0, 1,
        1, 0, 0, 0, 0, 1, 0, 1,
        1, 0, 1, 1, 0, 1, 0, 1,
        1, 0, 1, 0, 0, 1, 0, 1,
        1, 0, 1, 1, 1, 1, 0, 1,
        1, 0, 0, 0, 0, 0, 0, 1,
        1, 1, 1, 1, 1, 1, 1, 1,
    ];
    let labels = labels_of(8, 8, &cells);
    for (index, &label) in labels.iter().enumerate() {
        assert_eq!(label, if cells[index] != 0 { 7 } else { -1 });
    }
}

#[test]
fn diagonal_neighbours_are_not_connected() {
    let cells = [
        1, 0,
        0, 1,
    ];
    assert_eq!(labels_of(2, 2, &cells), vec![0, -1, -1, 3]);
}

#[test]
fn the_end_of_a_row_does_not_touch_the_start_of_the_next() {
    let cells = [
        0, 0, 0, 1,
        1, 0, 0, 0,
    ];
    assert_eq!(labels_of(4, 2, &cells), vec![-1, -1, -1, 3, 4, -1, -1, -1]);
}

#[test]
fn single_column_needs_no_merge_round() {
    assert_eq!(labels_of(1, 5, &[1, 1, 0, 1, 1]), vec![0, 0, -1, 3, 3]);
}

#[test]
fn image_without_rows_has_no_labels() {
    assert_eq!(labels_of(4, 0, &[]), Vec::<i32>::new());
}

#[test]
fn width_that_is_no_power_of_two_is_refused() {
    let raster = raster_of(3, 2, &[1, 1, 1, 1, 1, 1]);
    assert_eq!(label_components(&raster), Err(LabelError::WidthNotPowerOfTwo));
    let raster = raster_of(6, 1, &[1, 1, 1, 1, 1, 1]);
    assert_eq!(label_components(&raster), Err(LabelError::WidthNotPowerOfTwo));
}

#[test]
fn width_zero_is_refused() {
    let raster = raster_of(0, 7, &[]);
    assert_eq!(label_components(&raster), Err(LabelError::WidthNotPowerOfTwo));
}

#[test]
fn raster_needs_one_pixel_per_cell() {
    assert!(Raster::new(2, 2, vec![pixel(true); 3]).is_none());
    assert!(Raster::new(2, 2, vec![pixel(true); 5]).is_none());
    assert!(Raster::new(usize::MAX, 2, vec![pixel(true); 2]).is_none());
    let raster = Raster::new(2, 2, vec![pixel(true); 4]).expect("four pixels");
    assert_eq!((raster.width, raster.height, raster.pixels.len()), (2, 2, 4));
}

#[test]
fn only_the_alpha_channel_decides_the_foreground() {
    let pixels = vec![
        Rgba { red: 255, green: 255, blue: 255, alpha: 0 },
        Rgba { red: 0, green: 0, blue: 0, alpha: 1 },
    ];
    let raster = Raster::new(2, 1, pixels).expect("two pixels");
    assert_eq!(label_components(&raster), Ok(vec![-1, 1]));
}

#[test]
fn same_label_exactly_for_connected_pixels() {
    let cells = [
        1, 1, 0, 1,
        0, 1, 0, 1,
        1, 0, 0, 1,
        1, 1, 1, 1,
    ];
    let labels = labels_of(4, 4, &cells);
    let left = [0usize, 1, 5];
    let right = [3usize, 7, 8, 11, 12, 13, 14, 15];
    for &i in &left {
        for &j in &left {
            assert_eq!(labels[i], labels[j]);
        }
        for &j in &right {
            assert_ne!(labels[i], labels[j]);
        }
    }
    for &i in &right {
        for &j in &right {
            assert_eq!(labels[i], labels[j]);
        }
    }
    assert_eq!(labels[0], 0);
    assert_eq!(labels[15], 3);
}
