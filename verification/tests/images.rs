use image::{GrayImage, Luma, Rgba, RgbaImage};
use snesgfx::buffer::{GrayBuffer, RgbaBuffer};
use snesgfx::color::{Color, Palette};
use snesgfx::gfx::{Graphics, Snes};
use snesgfx::grid::Grid;
use snesgfx::import::UnknownColor;

fn shade(i: u32) -> Rgba<u8> {
    Rgba([(i * 16 + 1) as u8, (255 - i) as u8, (i * 3) as u8, 255])
}

fn color(p: Rgba<u8>) -> Color {
    Color { r: p.0[0], g: p.0[1], b: p.0[2], a: p.0[3] }
}

fn strip(count: u32) -> RgbaBuffer {
    RgbaBuffer(RgbaImage::from_fn(count, 1, |x, _| shade(x)))
}

#[test]
fn image_becomes_a_grid_row_by_row() {
    let img = RgbaImage::from_fn(3, 2, |x, y| Rgba([x as u8, y as u8, 7, 9 + x as u8]));
    let g = RgbaBuffer(img).to_grid();
    assert_eq!((g.width(), g.height()), (3, 2));
    assert_eq!(g.get(2, 1), Some(Color { r: 2, g: 1, b: 7, a: 11 }));
    assert_eq!(g.get(0, 1), Some(Color { r: 0, g: 1, b: 7, a: 9 }));
    assert_eq!(g.cells().len(), 6);
    assert_eq!(g.cells()[4], Color { r: 1, g: 1, b: 7, a: 10 });
}

#[test]
fn grid_becomes_an_image() {
    let cells: Vec<Color> = (0..6u8).map(|i| Color { r: i, g: 10 + i, b: 20 + i, a: 30 + i }).collect();
    let img = RgbaBuffer::from_grid(&Grid::new(2, 3, cells).unwrap()).0;
    assert_eq!(img.dimensions(), (2, 3));
    assert_eq!(*img.get_pixel(1, 0), Rgba([1, 11, 21, 31]));
    assert_eq!(*img.get_pixel(0, 2), Rgba([4, 14, 24, 34]));
    assert_eq!(img.into_raw().len(), 24);
}

#[test]
fn grey_image_becomes_a_grid_and_back() {
    let img = GrayImage::from_fn(3, 2, |x, y| Luma([(10 * y + x) as u8]));
    let g = GrayBuffer(img.clone()).to_grid();
    assert_eq!((g.width(), g.height()), (3, 2));
    assert_eq!(g.cells(), &vec![0u8, 1, 2, 10, 11, 12]);
    assert_eq!(GrayBuffer::from_grid(g).0, img);
}

#[test]
fn image_with_spare_samples_shows_its_pixels_only() {
    let img = GrayImage::from_raw(2, 2, vec![1, 2, 3, 4, 5, 6]).unwrap();
    let g = GrayBuffer(img).to_grid();
    assert_eq!(g.cells(), &vec![1u8, 2, 3, 4]);
    let img = RgbaImage::from_raw(1, 1, vec![1, 2, 3, 4, 5, 6]).unwrap();
    let g = RgbaBuffer(img).to_grid();
    assert_eq!(g.cells(), &vec![Color { r: 1, g: 2, b: 3, a: 4 }]);
}

#[test]
fn palette_of_an_image_is_its_pixels() {
    let img = RgbaImage::from_fn(4, 2, |x, y| shade(x + 4 * y));
    let p = Palette::from_image(&RgbaBuffer(img));
    assert_eq!(p.0, (0..8).map(|i| color(shade(i))).collect::<Vec<Color>>());
}

#[test]
fn palette_image_is_padded_with_transparent_black() {
    let p = Palette((0..5).map(|i| color(shade(i))).collect());
    let img = p.to_image(3, 2).0;
    assert_eq!(img.dimensions(), (3, 2));
    assert_eq!(*img.get_pixel(0, 0), shade(0));
    assert_eq!(*img.get_pixel(2, 0), shade(2));
    assert_eq!(*img.get_pixel(0, 1), shade(3));
    assert_eq!(*img.get_pixel(1, 1), shade(4));
    assert_eq!(*img.get_pixel(2, 1), Rgba([0, 0, 0, 0]));
}

#[test]
fn palette_file_becomes_a_sixteen_by_sixteen_image() {
    let bytes = [0x1F, 0x00, 0xE0, 0x03, 0x00, 0x7C];
    let img = Palette::from_format(snesgfx::color::Snes, &bytes).to_image(16, 16).0;
    assert_eq!(img.dimensions(), (16, 16));
    assert_eq!(*img.get_pixel(0, 0), Rgba([255, 0, 0, 255]));
    assert_eq!(*img.get_pixel(1, 0), Rgba([0, 255, 0, 255]));
    assert_eq!(*img.get_pixel(2, 0), Rgba([0, 0, 255, 255]));
    assert_eq!(*img.get_pixel(3, 0), Rgba([0, 0, 0, 0]));
    assert_eq!(*img.get_pixel(15, 15), Rgba([0, 0, 0, 0]));
}

#[test]
fn tile_image_of_a_sheet() {
    let sheet = Graphics((0..130u32).map(|p| p as u8).collect());
    let t = sheet.tile(1).map(|b| b.0).unwrap();
    assert_eq!(t.dimensions(), (8, 8));
    assert_eq!(t.get_pixel(0, 0).0[0], 64);
    assert_eq!(t.get_pixel(7, 0).0[0], 71);
    assert_eq!(t.get_pixel(2, 3).0[0], 64 + 26);
    assert!(sheet.tile(2).is_none());
    assert!(sheet.tile(usize::MAX / 64 + 1).is_none());
}

#[test]
fn sheet_image_has_sixteen_tiles_to_a_row() {
    let sheet = Graphics((0..17 * 64u32).map(|p| (p / 64 + 1) as u8).collect());
    let img = sheet.to_image().0;
    assert_eq!(img.dimensions(), (128, 16));
    for (x, y, p) in img.enumerate_pixels() {
        let tile = 16 * (y / 8) + x / 8;
        let expected = if tile < 17 { tile as u8 + 1 } else { 0 };
        assert_eq!(p.0[0], expected);
    }
}

#[test]
fn packed_tiles_become_a_sheet_image() {
    let mut packed = vec![0u8; 64];
    packed[0] = 0xFF;
    packed[32 + 2 * 7 + 1] = 0x01;
    let img = Graphics::from_format(Snes::<4>, &packed).to_image().0;
    assert_eq!(img.dimensions(), (128, 8));
    for x in 0..8 {
        assert_eq!(img.get_pixel(x, 0).0[0], 1);
    }
    assert_eq!(img.get_pixel(15, 7).0[0], 2);
    assert_eq!(img.pixels().filter(|p| p.0[0] != 0).count(), 9);
}

#[test]
fn grey_image_is_imported_tile_by_tile() {
    let img = GrayImage::from_fn(16, 16, |x, y| Luma([(x / 8 + 2 * (y / 8) + 10 * (x % 8)) as u8]));
    let out = Graphics::from_image(&GrayBuffer(img)).0;
    let mut expected = Vec::new();
    for tile in 0..4u32 {
        for p in 0..64u32 {
            expected.push((tile + 10 * (p % 8)) as u8);
        }
    }
    assert_eq!(out, expected);
}

#[test]
fn sheet_image_is_imported_as_the_sheet_it_shows() {
    let sheet: Vec<u8> = (0..20 * 64u32).map(|p| (p * 7 % 251) as u8).collect();
    let img = Graphics(sheet.clone()).to_image();
    let mut back = Graphics::from_image(&img).0;
    assert_eq!(back.len(), 32 * 64);
    assert!(back[20 * 64..].iter().all(|&p| p == 0));
    back.truncate(20 * 64);
    assert_eq!(back, sheet);
}

#[test]
fn paletted_image_is_imported_in_simple_order() {
    let img = RgbaImage::from_fn(16, 16, |x, y| shade(x / 8 + 2 * (y / 8)));
    let out = Graphics::from_paletted_image(&RgbaBuffer(img), &strip(4));
    let mut expected = Vec::new();
    for tile in 0..4u8 {
        expected.extend_from_slice(&[tile; 64]);
    }
    assert_eq!(out.ok().map(|s| s.0), Some(expected));
}

#[test]
fn paletted_image_is_imported_in_interleaved_order() {
    let img = RgbaBuffer(RgbaImage::from_fn(64, 64, |_, y| shade(y / 8)));
    let simple = Graphics::from_paletted_image(&img, &strip(8)).ok().map(|s| s.0).unwrap();
    let interleaved = Graphics::from_paletted_image2(&img, &strip(8)).ok().map(|s| s.0).unwrap();
    let mut expected = Vec::new();
    for row in [0u8, 4, 1, 5, 2, 6, 3, 7] {
        expected.extend_from_slice(&[row; 8 * 64]);
    }
    assert_eq!(interleaved, expected);
    assert_eq!(simple.len(), interleaved.len());
    assert_ne!(simple, interleaved);
}

#[test]
fn small_image_has_no_supertile() {
    let img = RgbaBuffer(RgbaImage::from_fn(16, 16, |x, y| shade(x / 8 + 2 * (y / 8))));
    let simple = Graphics::from_paletted_image(&img, &strip(4)).ok().map(|s| s.0).unwrap();
    let interleaved = Graphics::from_paletted_image2(&img, &strip(4)).ok().map(|s| s.0).unwrap();
    assert_eq!(simple.len(), 256);
    assert!(interleaved.is_empty());
}

#[test]
fn unknown_colour_in_an_image_fails_the_import() {
    let img = RgbaImage::from_fn(16, 8, |x, y| if (x, y) == (13, 2) { shade(9) } else { shade(1) });
    let r = Graphics::from_paletted_image(&RgbaBuffer(img), &strip(4));
    let e = r.err().unwrap();
    assert_eq!(e, UnknownColor { color: color(shade(9)), x: 13, y: 2 });
    assert_eq!(e.message(), "Unknown color Rgba([91, F6, 1B, FF]) at (13,2)");
}

#[test]
fn transparent_pixels_of_an_image_match_the_transparent_entry() {
    let pal = RgbaBuffer(RgbaImage::from_fn(2, 1, |x, _| if x == 0 { shade(0) } else { Rgba([5, 5, 5, 0]) }));
    let img = RgbaImage::from_fn(8, 8, |x, _| if x == 3 { Rgba([200, 100, 50, 0]) } else { shade(0) });
    let out = Graphics::from_paletted_image(&RgbaBuffer(img), &pal).ok().map(|s| s.0).unwrap();
    let expected: Vec<u8> = (0..64u32).map(|p| if p % 8 == 3 { 1 } else { 0 }).collect();
    assert_eq!(out, expected);
}

fn headered(width: u32, rows: u32, index: impl Fn(u32, u32) -> u32) -> RgbaBuffer {
    RgbaBuffer(RgbaImage::from_fn(width, 16 + rows, |x, y| {
        if y == 0 {
            shade(x)
        } else if y < 16 {
            shade(40 + x + y)
        } else {
            shade(index(x, y - 16))
        }
    }))
}

#[test]
fn headered_image_is_split_at_row_sixteen() {
    let img = headered(16, 16, |x, y| x / 8 + 2 * (y / 8));
    let out = Graphics::from_headered_image(&img).ok().map(|s| s.0).unwrap();
    let mut expected = Vec::new();
    for tile in 0..4u8 {
        expected.extend_from_slice(&[tile; 64]);
    }
    assert_eq!(out, expected);
    let mut packed = Vec::new();
    Graphics(out).to_format(Snes::<4>, &mut packed);
    assert_eq!(packed.len(), 4 * 32);
}

#[test]
fn headered_image_is_imported_in_interleaved_order() {
    let img = headered(64, 64, |_, y| y / 8);
    let out = Graphics::from_headered_image2(&img).ok().map(|s| s.0).unwrap();
    let mut expected = Vec::new();
    for row in [0u8, 4, 1, 5, 2, 6, 3, 7] {
        expected.extend_from_slice(&[row; 8 * 64]);
    }
    assert_eq!(out, expected);
}

#[test]
fn headered_image_reports_positions_below_the_header() {
    let img = headered(16, 8, |x, y| if (x, y) == (4, 5) { 33 } else { 0 });
    let e = Graphics::from_headered_image(&img).err().unwrap();
    assert_eq!(e, UnknownColor { color: color(shade(33)), x: 4, y: 5 });
    let e = Graphics::from_headered_image2(&headered(64, 64, |_, _| 17)).err().unwrap();
    assert_eq!(e, UnknownColor { color: color(shade(17)), x: 0, y: 0 });
}
