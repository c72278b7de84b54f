use snesgfx::color::Color;
use snesgfx::gfx::Graphics;
use snesgfx::grid::Grid;
use snesgfx::import::{PaletteMap, UnknownColor, PALETTE_LIMIT};

fn shade(i: u32) -> Color {
    Color { r: (i * 16 + 1) as u8, g: (255 - i) as u8, b: (i * 3) as u8, a: 255 }
}

fn strip(count: u32) -> Grid<Color> {
    Grid::new(count, 1, (0..count).map(shade).collect()).unwrap()
}

fn picture(width: u32, height: u32, index: impl Fn(u32, u32) -> u32) -> Grid<Color> {
    let mut cells = Vec::new();
    for y in 0..height {
        for x in 0..width {
            cells.push(shade(index(x, y)));
        }
    }
    Grid::new(width, height, cells).unwrap()
}

fn indices(r: Result<Graphics, UnknownColor>) -> Vec<u8> {
    match r {
        Ok(sheet) => sheet.0,
        Err(e) => panic!("{}", e.message()),
    }
}

fn failure(r: Result<Graphics, UnknownColor>) -> UnknownColor {
    match r {
        Ok(sheet) => panic!("imported {} indices", sheet.0.len()),
        Err(e) => e,
    }
}

#[test]
fn palette_limit_is_sixteen() {
    assert_eq!(PALETTE_LIMIT, 16);
}

#[test]
fn palette_gives_each_colour_its_position() {
    let colors: Vec<Color> = (0..5).map(shade).collect();
    let map = PaletteMap::from_strip(&colors);
    for i in 0..5 {
        assert_eq!(map.get(shade(i)), Some(i as u8));
    }
    assert_eq!(map.get(shade(5)), None);
}

#[test]
fn first_occurrence_of_a_colour_wins() {
    let colors = vec![shade(3), shade(3), shade(7), shade(3), shade(9)];
    let map = PaletteMap::from_strip(&colors);
    assert_eq!(map.get(shade(3)), Some(0));
    assert_eq!(map.get(shade(7)), Some(2));
    assert_eq!(map.get(shade(9)), Some(4));
}

#[test]
fn strip_is_read_up_to_sixteen_pixels() {
    let colors: Vec<Color> = (0..20).map(shade).collect();
    let map = PaletteMap::from_strip(&colors);
    assert_eq!(map.get(shade(15)), Some(15));
    assert_eq!(map.get(shade(16)), None);
    assert_eq!(map.get(shade(19)), None);
}

#[test]
fn repeated_colours_do_not_make_room_for_later_ones() {
    let mut colors: Vec<Color> = vec![shade(0); 16];
    colors.push(shade(1));
    let map = PaletteMap::from_strip(&colors);
    assert_eq!(map.get(shade(0)), Some(0));
    assert_eq!(map.get(shade(1)), None);
}

#[test]
fn transparent_colours_count_as_one() {
    let clear = Color { r: 9, g: 8, b: 7, a: 0 };
    let other_clear = Color { r: 1, g: 2, b: 3, a: 0 };
    let zero = Color { r: 0, g: 0, b: 0, a: 0 };
    let map = PaletteMap::from_strip(&[shade(1), clear, shade(2)]);
    assert_eq!(map.get(zero), Some(1));
    assert_eq!(map.get(clear), None);
    assert_eq!(map.lookup(clear, 0, 0), Ok(1));
    assert_eq!(map.lookup(other_clear, 5, 6), Ok(1));
    assert_eq!(map.lookup(shade(2), 0, 0), Ok(2));
}

#[test]
fn lookup_reports_the_colour_and_the_place() {
    let map = PaletteMap::from_strip(&[shade(1)]);
    assert_eq!(map.lookup(shade(4), 12, 34), Err(UnknownColor { color: shade(4), x: 12, y: 34 }));
    let clear = Color { r: 9, g: 8, b: 7, a: 0 };
    let zero = Color { r: 0, g: 0, b: 0, a: 0 };
    assert_eq!(map.lookup(clear, 1, 2), Err(UnknownColor { color: zero, x: 1, y: 2 }));
}

#[test]
fn message_names_the_colour_and_the_place() {
    let e = UnknownColor { color: Color { r: 255, g: 0, b: 171, a: 255 }, x: 3, y: 14 };
    assert_eq!(e.message(), "Unknown color Rgba([FF, 0, AB, FF]) at (3,14)");
}

#[test]
fn simple_order_goes_tile_by_tile() {
    let img = picture(16, 16, |x, y| x / 8 + 2 * (y / 8));
    let out = indices(Graphics::from_paletted_grid(&img, &strip(4)));
    let mut expected = Vec::new();
    for tile in 0..4u8 {
        expected.extend_from_slice(&[tile; 64]);
    }
    assert_eq!(out, expected);
}

#[test]
fn pixels_of_a_tile_come_row_by_row() {
    let img = picture(8, 8, |x, y| (x + y) % 16);
    let out = indices(Graphics::from_paletted_grid(&img, &strip(16)));
    let expected: Vec<u8> = (0..64u32).map(|p| ((p % 8 + p / 8) % 16) as u8).collect();
    assert_eq!(out, expected);
}

#[test]
fn pixels_outside_whole_tiles_are_left_out() {
    let img = picture(17, 9, |x, y| if x < 16 && y < 8 { x / 8 } else { 15 });
    let out = indices(Graphics::from_paletted_grid(&img, &strip(2)));
    let mut expected = vec![0u8; 64];
    expected.extend_from_slice(&[1; 64]);
    assert_eq!(out, expected);
    let small = picture(7, 30, |_, _| 9);
    assert!(indices(Graphics::from_paletted_grid(&small, &strip(1))).is_empty());
}

#[test]
fn orders_differ_on_a_supertile_and_keep_the_length() {
    let img = picture(64, 64, |_, y| y / 8);
    let pal = strip(8);
    let simple = indices(Graphics::from_paletted_grid(&img, &pal));
    let interleaved = indices(Graphics::from_paletted_grid2(&img, &pal));
    assert_eq!(simple.len(), 64 * 64);
    assert_eq!(interleaved.len(), simple.len());
    assert_ne!(simple, interleaved);
    let mut expected_simple = Vec::new();
    for row in 0..8u8 {
        expected_simple.extend_from_slice(&[row; 8 * 64]);
    }
    assert_eq!(simple, expected_simple);
    let mut expected_interleaved = Vec::new();
    for row in [0u8, 4, 1, 5, 2, 6, 3, 7] {
        expected_interleaved.extend_from_slice(&[row; 8 * 64]);
    }
    assert_eq!(interleaved, expected_interleaved);
}

#[test]
fn interleaved_order_takes_supertiles_row_by_row() {
    let img = picture(128, 128, |x, y| x / 64 + 2 * (y / 64) + 4 * ((y / 8) % 2));
    let pal = strip(8);
    let out = indices(Graphics::from_paletted_grid2(&img, &pal));
    assert_eq!(out.len(), 128 * 128);
    let mut expected = Vec::new();
    for supertile in 0..4u8 {
        for row in [0u8, 4, 1, 5, 2, 6, 3, 7] {
            expected.extend_from_slice(&[supertile + 4 * (row % 2); 8 * 64]);
        }
    }
    assert_eq!(out, expected);
}

#[test]
fn interleaved_order_keeps_the_columns_of_a_tile_row() {
    let img = picture(64, 64, |x, y| (x / 8 + y / 8) % 16);
    let out = indices(Graphics::from_paletted_grid2(&img, &strip(16)));
    let mut expected = Vec::new();
    for row in [0u32, 4, 1, 5, 2, 6, 3, 7] {
        for column in 0..8u32 {
            expected.extend_from_slice(&[((column + row) % 16) as u8; 64]);
        }
    }
    assert_eq!(out, expected);
}

#[test]
fn interleaved_order_leaves_out_what_fills_no_supertile() {
    let img = picture(16, 16, |x, y| x / 8 + 2 * (y / 8));
    let pal = strip(4);
    assert_eq!(indices(Graphics::from_paletted_grid(&img, &pal)).len(), 256);
    assert!(indices(Graphics::from_paletted_grid2(&img, &pal)).is_empty());
    let wide = picture(72, 127, |_, _| 1);
    assert_eq!(indices(Graphics::from_paletted_grid2(&wide, &pal)), vec![1u8; 64 * 64]);
}

#[test]
fn colour_outside_the_palette_fails_the_import() {
    let img = picture(16, 16, |x, y| if (x, y) == (9, 3) { 5 } else { 1 });
    let e = failure(Graphics::from_paletted_grid(&img, &strip(4)));
    assert_eq!(e, UnknownColor { color: shade(5), x: 9, y: 3 });
}

#[test]
fn import_fails_at_the_first_unknown_pixel_in_its_order() {
    let img = picture(16, 16, |x, y| if (x, y) == (2, 12) || (x, y) == (15, 7) { 9 } else { 0 });
    let e = failure(Graphics::from_paletted_grid(&img, &strip(4)));
    assert_eq!((e.x, e.y), (15, 7));
    let img = picture(8, 8, |x, y| if (x, y) == (0, 1) || (x, y) == (7, 0) { 9 } else { 0 });
    let e = failure(Graphics::from_paletted_grid(&img, &strip(4)));
    assert_eq!((e.x, e.y), (7, 0));
}

#[test]
fn interleaved_import_fails_at_the_first_unknown_pixel_in_its_order() {
    let img = picture(64, 64, |x, y| if (x, y) == (0, 8) || (x, y) == (63, 39) { 9 } else { 0 });
    let e = failure(Graphics::from_paletted_grid2(&img, &strip(4)));
    assert_eq!(e, UnknownColor { color: shade(9), x: 63, y: 39 });
    let e = failure(Graphics::from_paletted_grid(&img, &strip(4)));
    assert_eq!(e, UnknownColor { color: shade(9), x: 0, y: 8 });
}

#[test]
fn colour_beyond_the_sixteenth_strip_pixel_is_unknown() {
    let img = picture(8, 8, |x, y| if (x, y) == (4, 4) { 16 } else { 15 });
    let e = failure(Graphics::from_paletted_grid(&img, &strip(20)));
    assert_eq!(e, UnknownColor { color: shade(16), x: 4, y: 4 });
}

#[test]
fn transparent_pixels_match_the_transparent_entry() {
    let clear = Color { r: 50, g: 60, b: 70, a: 0 };
    let pal = Grid::new(3, 1, vec![shade(0), Color { r: 1, g: 1, b: 1, a: 0 }, shade(2)]).unwrap();
    let mut cells = vec![shade(2); 64];
    cells[10] = clear;
    let img = Grid::new(8, 8, cells).unwrap();
    let out = indices(Graphics::from_paletted_grid(&img, &pal));
    let mut expected = vec![2u8; 64];
    expected[10] = 1;
    assert_eq!(out, expected);
}

#[test]
fn unknown_transparent_pixel_is_reported_as_transparent_black() {
    let mut cells = vec![shade(0); 64];
    cells[8 * 2 + 5] = Color { r: 50, g: 60, b: 70, a: 0 };
    let img = Grid::new(8, 8, cells).unwrap();
    let e = failure(Graphics::from_paletted_grid(&img, &strip(4)));
    assert_eq!(e, UnknownColor { color: Color { r: 0, g: 0, b: 0, a: 0 }, x: 5, y: 2 });
}

#[test]
fn palette_strip_is_read_row_by_row() {
    let pal = Grid::new(2, 3, (0..6).map(shade).collect()).unwrap();
    let img = picture(8, 8, |x, _| x % 6);
    let out = indices(Graphics::from_paletted_grid(&img, &pal));
    let expected: Vec<u8> = (0..64u32).map(|p| (p % 8 % 6) as u8).collect();
    assert_eq!(out, expected);
}

fn headered(width: u32, rows: u32, index: impl Fn(u32, u32) -> u32) -> Grid<Color> {
    let mut cells = Vec::new();
    for y in 0..16 + rows {
        for x in 0..width {
            if y == 0 {
                cells.push(shade(x));
            } else if y < 16 {
                cells.push(shade(40 + x + y));
            } else {
                cells.push(shade(index(x, y - 16)));
            }
        }
    }
    Grid::new(width, 16 + rows, cells).unwrap()
}

#[test]
fn headered_image_splits_at_row_sixteen() {
    let img = headered(16, 16, |x, y| x / 8 + 2 * (y / 8));
    let out = indices(Graphics::from_headered_grid(&img));
    let mut expected = Vec::new();
    for tile in 0..4u8 {
        expected.extend_from_slice(&[tile; 64]);
    }
    assert_eq!(out, expected);
}

#[test]
fn headered_image_in_interleaved_order() {
    let img = headered(64, 64, |_, y| y / 8);
    let out = indices(Graphics::from_headered_grid2(&img));
    let mut expected = Vec::new();
    for row in [0u8, 4, 1, 5, 2, 6, 3, 7] {
        expected.extend_from_slice(&[row; 8 * 64]);
    }
    assert_eq!(out, expected);
    assert_ne!(out, indices(Graphics::from_headered_grid(&img)));
}

#[test]
fn headered_image_uses_the_first_sixteen_columns() {
    let img = headered(24, 8, |x, _| if x == 23 { 16 } else { x % 16 });
    let e = failure(Graphics::from_headered_grid(&img));
    assert_eq!(e, UnknownColor { color: shade(16), x: 23, y: 0 });
}

#[test]
fn headered_image_counts_positions_from_row_sixteen() {
    let img = headered(16, 8, |x, y| if (x, y) == (11, 6) { 30 } else { 2 });
    let e = failure(Graphics::from_headered_grid(&img));
    assert_eq!(e, UnknownColor { color: shade(30), x: 11, y: 6 });
}

#[test]
fn narrow_header_goes_on_in_the_next_row() {
    let mut cells: Vec<Color> = (0..8 * 16).map(shade).collect();
    cells.extend((0..64).map(|p| shade(8 + p % 8)));
    let img = Grid::new(8, 24, cells).unwrap();
    let out = indices(Graphics::from_headered_grid(&img));
    let expected: Vec<u8> = (0..64u32).map(|p| (8 + p % 8) as u8).collect();
    assert_eq!(out, expected);
}

#[test]
fn header_without_tiles_is_an_empty_sheet() {
    let img = headered(16, 0, |_, _| 0);
    assert!(indices(Graphics::from_headered_grid(&img)).is_empty());
    let short = Grid::new(16, 3, vec![shade(1); 48]).unwrap();
    assert!(indices(Graphics::from_headered_grid(&short)).is_empty());
    assert!(indices(Graphics::from_headered_grid2(&short)).is_empty());
}

#[test]
fn grey_levels_are_taken_as_indices() {
    let cells: Vec<u8> = (0..16 * 8u32).map(|k| (k % 16 + 16 * (k / 16)) as u8).collect();
    let img = Grid::new(16, 8, cells).unwrap();
    let out = Graphics::from_index_grid(&img).0;
    let mut expected = Vec::new();
    for tile in 0..2u32 {
        for p in 0..64u32 {
            expected.push((8 * tile + p % 8 + 16 * (p / 8)) as u8);
        }
    }
    assert_eq!(out, expected);
}

#[test]
fn grey_import_leaves_out_what_fills_no_tile() {
    let img = Grid::new(15, 9, vec![200u8; 135]).unwrap();
    assert_eq!(Graphics::from_index_grid(&img).0, vec![200u8; 64]);
    let img = Grid::new(7, 100, vec![1u8; 700]).unwrap();
    assert!(Graphics::from_index_grid(&img).0.is_empty());
}
