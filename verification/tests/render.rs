use ascii_art::codec::{compress, decompress, PaletteError};
use ascii_art::render::{check_palette, generate, shade, Raster};

#[test]
fn shade_buckets_are_of_equal_width() {
    assert_eq!(shade(0, 5), 0);
    assert_eq!(shade(51, 5), 0);
    assert_eq!(shade(52, 5), 1);
    assert_eq!(shade(102, 5), 1);
    assert_eq!(shade(103, 5), 2);
    assert_eq!(shade(204, 5), 3);
    assert_eq!(shade(205, 5), 4);
    assert_eq!(shade(255, 5), 4);
    assert_eq!(shade(127, 2), 0);
    assert_eq!(shade(128, 2), 1);
}

#[test]
fn shade_stays_inside_the_palette() {
    for n in 1..=300usize {
        for sample in 0..=255u8 {
            let index = shade(sample, n);
            assert!(index < n);
            assert_eq!(index, sample as usize * n / 256);
        }
    }
    assert_eq!(shade(255, 1), 0);
    assert_eq!(shade(255, 256), 255);
    assert_eq!(shade(255, 512), 510);
    assert_eq!(shade(255, usize::MAX), (usize::MAX / 256) * 255 + 254);
}

#[test]
fn raster_needs_all_its_samples() {
    assert!(Raster::new(2, 2, vec![0, 1, 2]).is_none());
    assert!(Raster::new(2, 2, vec![0, 1, 2, 3, 4]).is_none());
    assert!(Raster::new(usize::MAX, 2, vec![]).is_none());
    let grid = Raster::new(3, 2, vec![0; 6]).unwrap();
    assert_eq!(grid.width(), 3);
    assert_eq!(grid.height(), 2);
    assert!(Raster::new(0, 5, vec![]).is_some());
}

#[test]
fn renders_row_by_row() {
    let grid = Raster::new(3, 2, vec![0, 128, 255, 255, 127, 60]).unwrap();
    assert_eq!(generate(&grid, " #"), " ##\n#  \n");
    assert_eq!(generate(&grid, " ░▒▓█"), " ▒█\n█▒░\n");
    assert_eq!(generate(&grid, "x"), "xxx\nxxx\n");
}

#[test]
fn renders_nothing_without_samples() {
    assert_eq!(generate(&Raster::new(0, 0, vec![]).unwrap(), " #"), "");
    assert_eq!(generate(&Raster::new(0, 4, vec![]).unwrap(), " #"), "");
    assert_eq!(generate(&Raster::new(4, 0, vec![]).unwrap(), " #"), "");
}

#[test]
fn palette_must_hold_a_character() {
    assert_eq!(check_palette(""), Err(PaletteError::Empty));
    assert_eq!(check_palette(" "), Ok(()));
    assert_eq!(check_palette(" ░▒▓█"), Ok(()));
}

#[test]
fn rendered_text_survives_the_codec() {
    let samples: Vec<u8> = (0..48u32).map(|i| (i * 37 % 256) as u8).collect();
    let grid = Raster::new(8, 6, samples).unwrap();
    let colors = " ░▒▓█";
    let text = generate(&grid, colors);
    let compact = compress(&text, colors).unwrap();
    let lines = decompress(&compact, 8, colors).unwrap();
    let mut again = String::new();
    for line in &lines {
        again.push_str(line);
        again.push('\n');
    }
    assert_eq!(again, text);
}
