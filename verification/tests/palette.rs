use ccl_8k::palette::{color_from_code, colorize, palette_colors, PALETTE_SIZE};
use ccl_8k::raster::Rgba;

fn grey(level: u8) -> Rgba {
    Rgba { red: level, green: level, blue: level, alpha: level }
}

#[test]
fn color_code_is_split_into_channels() {
    assert_eq!(color_from_code(0xff4040), Rgba { red: 255, green: 64, blue: 64, alpha: 255 });
    assert_eq!(color_from_code(0x001d72), Rgba { red: 0, green: 29, blue: 114, alpha: 255 });
    assert_eq!(color_from_code(0), Rgba { red: 0, green: 0, blue: 0, alpha: 255 });
    assert_eq!(color_from_code(0xab123456), Rgba { red: 0x12, green: 0x34, blue: 0x56, alpha: 255 });
}

#[test]
fn palette_has_twenty_three_opaque_colors() {
    let palette = palette_colors();
    assert_eq!(PALETTE_SIZE, 23);
    assert_eq!(palette.len(), 23);
    assert_eq!(palette[0], Rgba { red: 0x58, green: 0, blue: 0, alpha: 255 });
    assert_eq!(palette[10], Rgba { red: 0xff, green: 0xbf, blue: 0x00, alpha: 255 });
    assert_eq!(palette[22], Rgba { red: 0x4b, green: 0x4b, blue: 0x4b, alpha: 255 });
    assert!(palette.iter().all(|color| color.alpha == 255));
}

#[test]
fn labels_get_colors_in_the_order_they_are_met() {
    let labels = vec![-1, 5, 5, 2, -1, 2, 5, 9];
    let mut pixels: Vec<Rgba> = (0..8).map(|i| grey(i as u8)).collect();
    let colors = colorize(&labels, &mut pixels);
    let palette = palette_colors();
    assert_eq!(colors.len(), 3);
    assert_eq!(colors.get(&5), Some(&palette[0]));
    assert_eq!(colors.get(&2), Some(&palette[1]));
    assert_eq!(colors.get(&9), Some(&palette[2]));
    assert_eq!(colors.get(&-1), None);
    assert_eq!(
        pixels,
        vec![
            grey(0),
            palette[0],
            palette[0],
            palette[1],
            grey(4),
            palette[1],
            palette[0],
            palette[2]
        ]
    );
}

#[test]
fn background_pixels_are_left_alone() {
    let labels = vec![-1, -1, -1];
    let mut pixels = vec![grey(7), grey(8), grey(9)];
    let colors = colorize(&labels, &mut pixels);
    assert!(colors.is_empty());
    assert_eq!(pixels, vec![grey(7), grey(8), grey(9)]);
}

#[test]
fn palette_starts_over_when_it_is_used_up() {
    let mut labels: Vec<i32> = (0..25).collect();
    labels.extend(0..25);
    let mut pixels = vec![grey(1); 50];
    let colors = colorize(&labels, &mut pixels);
    let palette = palette_colors();
    assert_eq!(colors.len(), 25);
    for label in 0..25usize {
        assert_eq!(colors.get(&(label as i32)), Some(&palette[label % 23]));
        assert_eq!(pixels[label], palette[label % 23]);
        assert_eq!(pixels[25 + label], palette[label % 23]);
    }
    assert_eq!(colors.get(&23), colors.get(&0));
    assert_eq!(colors.get(&24), colors.get(&1));
}

#[test]
fn coloring_an_empty_image_gives_an_empty_table() {
    let mut pixels: Vec<Rgba> = Vec::new();
    let colors = colorize(&Vec::new(), &mut pixels);
    assert!(colors.is_empty());
    assert!(pixels.is_empty());
}

#[test]
fn labels_beyond_the_last_pixel_are_not_looked_at() {
    let labels = vec![4, 4, 7, 7];
    let mut pixels = vec![grey(1), grey(2)];
    let colors = colorize(&labels, &mut pixels);
    let palette = palette_colors();
    assert_eq!(colors.len(), 1);
    assert_eq!(colors.get(&4), Some(&palette[0]));
    assert_eq!(pixels, vec![palette[0], palette[0]]);
}

#[test]
fn single_pixel_component_is_painted() {
    let labels = vec![-1, 1, -1, 3];
    let mut pixels = vec![grey(0), grey(50), grey(0), grey(60)];
    colorize(&labels, &mut pixels);
    let palette = palette_colors();
    assert_eq!(pixels, vec![grey(0), palette[0], grey(0), palette[1]]);
}

#[test]
fn every_foreground_pixel_gets_the_color_of_its_label() {
    let labels = vec![0, -1, 0, 3, 3, -1, 0, 7, 3];
    let mut pixels: Vec<Rgba> = (0..9).map(|i| grey(100 + i as u8)).collect();
    let before = pixels.clone();
    let colors = colorize(&labels, &mut pixels);
    for k in 0..labels.len() {
        if labels[k] >= 0 {
            assert_eq!(Some(&pixels[k]), colors.get(&labels[k]));
        } else {
            assert_eq!(pixels[k], before[k]);
        }
    }
}
