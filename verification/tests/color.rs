use snesgfx::color::{into_rgb8, into_snes, Color, Format, Palette, Snes};

fn rgb(r: u8, g: u8, b: u8) -> Color {
    Color { r, g, b, a: 255 }
}

#[test]
fn packs_each_channel_into_its_field() {
    assert_eq!(into_snes(rgb(255, 0, 0)), 0x001F);
    assert_eq!(into_snes(rgb(0, 255, 0)), 0x03E0);
    assert_eq!(into_snes(rgb(0, 0, 255)), 0x7C00);
    assert_eq!(into_snes(rgb(255, 255, 255)), 0x7FFF);
    assert_eq!(into_snes(rgb(8, 16, 24)), 1 | (2 << 5) | (3 << 10));
}

#[test]
fn packing_truncates_and_drops_alpha() {
    assert_eq!(into_snes(rgb(7, 7, 7)), 0);
    assert_eq!(into_snes(rgb(15, 23, 31)), 1 | (2 << 5) | (3 << 10));
    assert_eq!(into_snes(Color { r: 200, g: 100, b: 50, a: 0 }), into_snes(rgb(200, 100, 50)));
}

#[test]
fn expands_by_repeating_the_top_bits() {
    assert_eq!(into_rgb8(0x7FFF), rgb(255, 255, 255));
    assert_eq!(into_rgb8(0x0000), rgb(0, 0, 0));
    assert_eq!(into_rgb8(0x0001), rgb(8, 0, 0));
    assert_eq!(into_rgb8(0x0010), rgb(132, 0, 0));
    assert_eq!(into_rgb8(0x001F), rgb(255, 0, 0));
    assert_eq!(into_rgb8(4 << 5), rgb(0, 33, 0));
    assert_eq!(into_rgb8(21 << 10), rgb(0, 0, 173));
}

#[test]
fn expanding_ignores_the_top_bit_of_the_word() {
    assert_eq!(into_rgb8(0x8000), rgb(0, 0, 0));
    assert_eq!(into_rgb8(0xFFFF), rgb(255, 255, 255));
    assert_eq!(into_rgb8(0x8000 | 0x0421), into_rgb8(0x0421));
}

#[test]
fn round_trip_moves_no_channel_by_more_than_seven() {
    for v in 0..=255u8 {
        let c = Color { r: v, g: 255 - v, b: v ^ 0x55, a: v };
        let d = into_rgb8(into_snes(c));
        assert!((d.r as i32 - c.r as i32).abs() <= 7);
        assert!((d.g as i32 - c.g as i32).abs() <= 7);
        assert!((d.b as i32 - c.b as i32).abs() <= 7);
        assert_eq!(d.a, 255);
    }
}

#[test]
fn round_trip_is_exact_where_the_low_bits_repeat_the_top_bits() {
    for v in 0..=255u8 {
        let d = into_rgb8(into_snes(rgb(v, v, v)));
        let repeats = v & 7 == v >> 5;
        assert_eq!(d.r == v, repeats);
        assert_eq!(d.g == v, repeats);
        assert_eq!(d.b == v, repeats);
        if repeats {
            assert_eq!(d, rgb(v, v, v));
        }
    }
}

#[test]
fn empty_stream_is_an_empty_palette() {
    assert!(Palette::from_format(Snes, &[]).0.is_empty());
    assert!(Palette::new().0.is_empty());
}

#[test]
fn single_byte_is_an_empty_palette() {
    assert!(Palette::from_format(Snes, &[0x1F]).0.is_empty());
}

#[test]
fn palette_words_are_little_endian() {
    let p = Palette::from_format(Snes, &[0x1F, 0x00, 0x00, 0x7C, 0xFF, 0x7F]);
    assert_eq!(p.0, vec![rgb(255, 0, 0), rgb(0, 0, 255), rgb(255, 255, 255)]);
}

#[test]
fn trailing_odd_byte_is_ignored() {
    let even = [0x1F, 0x00, 0xE0, 0x03];
    let odd = [0x1F, 0x00, 0xE0, 0x03, 0xAB];
    let a = Palette::from_format(Snes, &even);
    let b = Palette::from_format(Snes, &odd);
    assert_eq!(a.0, b.0);
    assert_eq!(a.0, vec![rgb(255, 0, 0), rgb(0, 255, 0)]);
}

#[test]
fn palette_is_written_two_bytes_per_colour() {
    let p = Palette(vec![rgb(255, 0, 0), rgb(0, 0, 255), rgb(8, 16, 24)]);
    let mut out = vec![0xEE];
    p.to_format(Snes, &mut out);
    assert_eq!(out, vec![0xEE, 0x1F, 0x00, 0x00, 0x7C, 0x41, 0x0C]);
}

#[test]
fn empty_palette_writes_nothing() {
    let mut out = Vec::new();
    Palette::new().to_format(Snes, &mut out);
    assert!(out.is_empty());
}

#[test]
fn palette_bytes_survive_decoding_and_encoding() {
    let bytes: Vec<u8> = (0..64u32).flat_map(|i| [(i * 37) as u8, ((i * 11) & 0x7F) as u8]).collect();
    let mut out = Vec::new();
    Palette::from_format(Snes, &bytes).to_format(Snes, &mut out);
    assert_eq!(out, bytes);
}

#[test]
fn snes_reads_one_colour_and_moves_on() {
    let bytes = [0x1F, 0x00, 0xFF];
    let mut rest: &[u8] = &bytes;
    assert_eq!(Snes.from_buf(&mut rest), Some(rgb(255, 0, 0)));
    assert_eq!(rest, &[0xFF]);
    assert_eq!(Snes.from_buf(&mut rest), None);
    assert_eq!(rest, &[0xFF]);
}

#[test]
fn snes_appends_one_word() {
    let mut out = vec![1, 2];
    Snes.to_buf(rgb(255, 255, 255), &mut out);
    assert_eq!(out, vec![1, 2, 0xFF, 0x7F]);
}
