//! Colours: 24-bit RGB with an alpha channel, the console's packed 15-bit
//! colour word, and palettes stored as a stream of such words.
use crate::buffer::{rgba_grid, rgba_pixels, RgbaBuffer};
use crate::grid::{Grid, GridView};
use vstd::prelude::*;

verus! {

/// A colour with 8 bits per channel. `a` is the alpha channel; the codec only
/// ever asks whether it is zero (fully transparent).
#[derive(Clone, Copy, Debug, PartialEq, Eq, Hash, Structural)]
pub struct Color {
    pub r: u8,
    pub g: u8,
    pub b: u8,
    pub a: u8,
}

/// Transparent black: the colour of the cells that a palette does not fill,
/// and the one that stands for every fully transparent colour.
pub open spec fn transparent() -> Color {
    Color { r: 0, g: 0, b: 0, a: 0 }
}

/// The packed word of a colour: the top five bits of red in bits 0-4, of green
/// in bits 5-9 and of blue in bits 10-14. Bit 15 is clear and alpha is dropped.
pub open spec fn snes_word(c: Color) -> u16 {
    (c.r / 8 + 32 * (c.g / 8) + 1024 * (c.b / 8)) as u16
}

/// A five-bit channel value widened to eight bits: its bits move up by three
/// and its top three bits fill the gap. `v` is below 32.
pub open spec fn expand_channel(v: int) -> u8 {
    (8 * v + v / 4) as u8
}

/// The colour that a packed word stands for. Bit 15 of the word is ignored and
/// the colour is opaque.
pub open spec fn rgb8_color(w: u16) -> Color {
    Color {
        r: expand_channel(w as int % 32),
        g: expand_channel((w as int / 32) % 32),
        b: expand_channel((w as int / 1024) % 32),
        a: 255,
    }
}

/// The 16-bit word whose little-endian bytes are `lo`, `hi`.
pub open spec fn word_le(lo: u8, hi: u8) -> u16 {
    (lo + 256 * hi) as u16
}

/// The two little-endian bytes of a word.
pub open spec fn word_bytes(w: u16) -> Seq<u8> {
    seq![(w % 256) as u8, (w / 256) as u8]
}

/// Quantizes a colour to the packed 15-bit word, by truncation.
pub fn into_snes(c: Color) -> (w: u16)
    ensures
        w == snes_word(c),
        w < 0x8000,
{
    let r: u16 = c.r as u16;
    let g: u16 = c.g as u16;
    let b: u16 = c.b as u16;
    assert(r < 256 && g < 256 && b < 256 ==> ((r >> 3) | ((g >> 3) << 5) | ((b >> 3) << 10)) == r
        / 8 + 32 * (g / 8) + 1024 * (b / 8)) by (bit_vector);
    (r >> 3) | ((g >> 3) << 5) | ((b >> 3) << 10)
}

fn extend(v: u16) -> (e: u8)
    requires
        v < 32,
    ensures
        e == expand_channel(v as int),
{
    assert(v < 32 ==> ((v << 3) | (v >> 2)) == 8 * v + v / 4 && ((v << 3) | (v >> 2)) < 256)
        by (bit_vector);
    ((v << 3) | (v >> 2)) as u8
}

/// Expands a packed 15-bit word to a colour. The low three bits of each channel
/// repeat its top three bits, so that the brightest word gives full white.
pub fn into_rgb8(c: u16) -> (color: Color)
    ensures
        color == rgb8_color(c),
{
    assert((c & 0x1f) == c % 32 && ((c >> 5) & 0x1f) == (c / 32) % 32 && ((c >> 10) & 0x1f) == (c
        / 1024) % 32) by (bit_vector);
    let b: u8 = extend((c >> 10) & 0x1f);
    let g: u8 = extend((c >> 5) & 0x1f);
    let r: u8 = extend(c & 0x1f);
    Color { r, g, b, a: 0xFF }
}

/// A colour format: how one colour is read off the front of a byte stream and
/// how one is written to its end. What is read or written depends on the bytes
/// or the colour alone, as `parse` and `emit` say.
pub trait Format {
    /// What `from_buf` finds at the front of `input`: a colour and the number
    /// of bytes that hold it, or `None` where `input` holds no further colour.
    spec fn parse(input: Seq<u8>) -> Option<(Color, nat)>;

    /// The bytes that `to_buf` appends for `color`.
    spec fn emit(color: Color) -> Seq<u8>;

    /// A colour that is read takes up at least one byte, and no more than
    /// there are.
    proof fn parse_consumes(input: Seq<u8>)
        ensures
            Self::parse(input) matches Some((_, n)) ==> 0 < n <= input.len(),
    ;

    /// Reads one colour and moves `input` past it; leaves `input` alone and
    /// returns `None` where none is left.
    fn from_buf(&mut self, input: &mut &[u8]) -> (r: Option<Color>)
        ensures
            match Self::parse(old(input)@) {
                Some((c, n)) => r == Some(c) && final(input)@ == old(input)@.skip(n as int),
                None => r is None && final(input)@ == old(input)@,
            },
    ;

    /// Appends one colour to `output`.
    fn to_buf(&mut self, color: Color, output: &mut Vec<u8>)
        ensures
            final(output)@ == old(output)@ + Self::emit(color),
    ;
}

/// All colours that format `F` reads from `input`, front to back, until it
/// finds none.
pub open spec fn decode_colors<F: Format>(input: Seq<u8>) -> Seq<Color>
    decreases input.len(),
{
    match F::parse(input) {
        Some((c, n)) => if 0 < n <= input.len() {
            seq![c] + decode_colors::<F>(input.skip(n as int))
        } else {
            Seq::empty()
        },
        None => Seq::empty(),
    }
}

/// The bytes that format `F` writes for `colors`, one after the other.
pub open spec fn encode_colors<F: Format>(colors: Seq<Color>) -> Seq<u8>
    decreases colors.len(),
{
    if colors.len() == 0 {
        Seq::empty()
    } else {
        encode_colors::<F>(colors.drop_last()) + F::emit(colors.last())
    }
}

/// The console's palette format: one little-endian packed word per colour,
/// with no header and no padding.
pub struct Snes;

impl Format for Snes {
    open spec fn parse(input: Seq<u8>) -> Option<(Color, nat)> {
        if input.len() < 2 {
            None
        } else {
            Some((rgb8_color(word_le(input[0], input[1])), 2nat))
        }
    }

    open spec fn emit(color: Color) -> Seq<u8> {
        word_bytes(snes_word(color))
    }

    proof fn parse_consumes(input: Seq<u8>) {
    }

    fn from_buf(&mut self, input: &mut &[u8]) -> (r: Option<Color>) {
        if input.len() < 2 {
            return None;
        }
        let (a, b) = input.split_at(2);
        let lo: u16 = a[0] as u16;
        let hi: u16 = a[1] as u16;
        *input = b;
        Some(into_rgb8(lo + 256 * hi))
    }

    fn to_buf(&mut self, color: Color, output: &mut Vec<u8>) {
        let w: u16 = into_snes(color);
        let ghost before = output@;
        output.push((w % 256) as u8);
        output.push((w / 256) as u8);
        assert(output@ =~= before + word_bytes(w));
    }
}

/// An ordered list of colours. The position of a colour is its index.
pub struct Palette(pub Vec<Color>);

impl Palette {
    /// The empty palette.
    pub fn new() -> (p: Self)
        ensures
            p.0@ == Seq::<Color>::empty(),
    {
        Self(Vec::new())
    }

    /// Reads a whole palette from `buf` in format `f`. Bytes at the end that
    /// hold no further colour are ignored.
    pub fn from_format<F: Format>(f: F, buf: &[u8]) -> (p: Self)
        ensures
            p.0@ == decode_colors::<F>(buf@),
    {
        let mut f = f;
        let mut rest: &[u8] = buf;
        let mut colors: Vec<Color> = Vec::new();
        loop
            invariant
                colors@ + decode_colors::<F>(rest@) == decode_colors::<F>(buf@),
            ensures
                colors@ == decode_colors::<F>(buf@),
            decreases rest@.len(),
        {
            let ghost before = rest@;
            let ghost done = colors@;
            proof {
                F::parse_consumes(before);
            }
            match f.from_buf(&mut rest) {
                Some(c) => {
                    colors.push(c);
                    assert(colors@ + decode_colors::<F>(rest@) =~= done + decode_colors::<F>(
                        before,
                    ));
                },
                None => {
                    assert(colors@ + decode_colors::<F>(before) =~= colors@);
                    break ;
                },
            }
        }
        Self(colors)
    }

    /// Appends the whole palette to `buf` in format `f`.
    pub fn to_format<F: Format>(&self, f: F, buf: &mut Vec<u8>)
        ensures
            final(buf)@ == old(buf)@ + encode_colors::<F>(self.0@),
    {
        let mut f = f;
        let mut i: usize = 0;
        while i < self.0.len()
            invariant
                i <= self.0@.len(),
                buf@ == old(buf)@ + encode_colors::<F>(self.0@.take(i as int)),
            decreases self.0@.len() - i,
        {
            f.to_buf(self.0[i], buf);
            proof {
                let next = self.0@.take(i + 1);
                assert(next.drop_last() =~= self.0@.take(i as int));
                assert(buf@ =~= old(buf)@ + encode_colors::<F>(next));
            }
            i += 1;
        }
        assert(self.0@.take(i as int) =~= self.0@);
    }
}

/// A palette laid out as a grid of `width` by `height`: its colours fill the
/// rows from the top left, and cells that are left over are transparent
/// black. Colours that do not fit are left out.
pub open spec fn palette_grid(colors: Seq<Color>, width: nat, height: nat) -> GridView<Color> {
    GridView {
        width,
        height,
        cells: Seq::new(
            width * height,
            |k: int|
                if k < colors.len() {
                    colors[k]
                } else {
                    transparent()
                },
        ),
    }
}

impl Palette {
    /// The palette that a grid of colours shows: its cells, row by row.
    pub fn from_grid(img: &Grid<Color>) -> (p: Self)
        ensures
            p.0@ == img@.cells,
    {
        let cells: &Vec<Color> = img.cells();
        let mut colors: Vec<Color> = Vec::new();
        let mut i: usize = 0;
        while i < cells.len()
            invariant
                i <= cells@.len(),
                colors@ == cells@.take(i as int),
            decreases cells@.len() - i,
        {
            colors.push(cells[i]);
            assert(colors@ =~= cells@.take(i + 1));
            i += 1;
        }
        assert(cells@.take(i as int) =~= cells@);
        Self(colors)
    }

    /// Lays the palette out as a grid of `width` by `height` cells.
    pub fn to_grid(&self, width: u32, height: u32) -> (img: Grid<Color>)
        requires
            width * height <= usize::MAX,
        ensures
            img@ == palette_grid(self.0@, width as nat, height as nat),
    {
        assert(0 <= width * height) by (nonlinear_arith)
            requires
                0 <= width,
                0 <= height,
        ;
        let area: usize = (width as usize) * (height as usize);
        let ghost wanted = palette_grid(self.0@, width as nat, height as nat).cells;
        let mut cells: Vec<Color> = Vec::new();
        let mut k: usize = 0;
        while k < area
            invariant
                k <= area,
                area == width * height,
                wanted == palette_grid(self.0@, width as nat, height as nat).cells,
                cells@ == wanted.take(k as int),
            decreases area - k,
        {
            let c: Color = if k < self.0.len() {
                self.0[k]
            } else {
                Color { r: 0, g: 0, b: 0, a: 0 }
            };
            cells.push(c);
            assert(cells@ =~= wanted.take(k + 1));
            k += 1;
        }
        assert(wanted.take(area as int) =~= wanted);
        Grid::new(width, height, cells).unwrap()
    }
}

impl Palette {
    /// The palette that an image shows: its pixels, row by row.
    pub fn from_image(img: &RgbaBuffer) -> (p: Self)
        ensures
            p.0@ == rgba_pixels(*img),
    {
        Self::from_grid(&img.to_grid())
    }

    /// Lays the palette out as an image of `width` by `height` pixels: its
    /// colours fill the rows from the top left, and pixels that are left
    /// over are transparent black.
    pub fn to_image(&self, width: u32, height: u32) -> (img: RgbaBuffer)
        requires
            4 * width <= usize::MAX,
            4 * width * height <= usize::MAX,
        ensures
            rgba_grid(img) == palette_grid(self.0@, width as nat, height as nat),
    {
        assert(0 <= width * height <= 4 * width * height) by (nonlinear_arith)
            requires
                0 <= width,
                0 <= height,
        ;
        RgbaBuffer::from_grid(&self.to_grid(width, height))
    }
}

/// What the console's format reads from `bytes`: one colour for each full pair
/// of bytes.
pub open spec fn snes_colors(bytes: Seq<u8>) -> Seq<Color> {
    Seq::new(bytes.len() / 2, |i: int| rgb8_color(word_le(bytes[2 * i], bytes[2 * i + 1])))
}

/// What the console's format writes for `colors`: two bytes for each.
pub open spec fn snes_bytes(colors: Seq<Color>) -> Seq<u8> {
    Seq::new(2 * colors.len(), |k: int| word_bytes(snes_word(colors[k / 2]))[k % 2])
}

/// Reading a palette in the console's format gives `snes_colors`.
pub proof fn lemma_snes_decode(bytes: Seq<u8>)
    ensures
        decode_colors::<Snes>(bytes) == snes_colors(bytes),
    decreases bytes.len(),
{
    if bytes.len() >= 2 {
        let rest = bytes.skip(2);
        lemma_snes_decode(rest);
        assert(decode_colors::<Snes>(bytes) =~= snes_colors(bytes)) by {
            assert forall|i: int| 0 <= i < snes_colors(bytes).len() implies decode_colors::<Snes>(
                bytes,
            )[i] == snes_colors(bytes)[i] by {
                if i > 0 {
                    assert(rest[2 * (i - 1)] == bytes[2 * i]);
                    assert(rest[2 * (i - 1) + 1] == bytes[2 * i + 1]);
                }
            }
        }
    } else {
        assert(decode_colors::<Snes>(bytes) =~= snes_colors(bytes));
    }
}

/// Writing a palette in the console's format gives `snes_bytes`.
pub proof fn lemma_snes_encode(colors: Seq<Color>)
    ensures
        encode_colors::<Snes>(colors) == snes_bytes(colors),
    decreases colors.len(),
{
    if colors.len() > 0 {
        lemma_snes_encode(colors.drop_last());
    }
    assert(encode_colors::<Snes>(colors) =~= snes_bytes(colors));
}

/// Packing a colour and expanding it again moves no channel by more than 7,
/// and gives a channel back unchanged exactly when its low three bits repeat
/// its top three. The result is always opaque.
pub proof fn lemma_color_round_trip(c: Color)
    ensures
        ({
            let d = rgb8_color(snes_word(c));
            &&& -7 <= d.r - c.r <= 7
            &&& -7 <= d.g - c.g <= 7
            &&& -7 <= d.b - c.b <= 7
            &&& d.r == c.r <==> c.r % 8 == c.r / 32
            &&& d.g == c.g <==> c.g % 8 == c.g / 32
            &&& d.b == c.b <==> c.b % 8 == c.b / 32
            &&& d.a == 255
        }),
{
    let w = snes_word(c);
    assert(w as int % 32 == c.r / 8);
    assert((w as int / 32) % 32 == c.g / 8);
    assert((w as int / 1024) % 32 == c.b / 8);
}

/// A colour survives packing and expanding unchanged where it is opaque and
/// the low three bits of each channel repeat the top three.
pub proof fn lemma_color_round_trip_exact(c: Color)
    requires
        c.a == 255,
        c.r % 8 == c.r / 32,
        c.g % 8 == c.g / 32,
        c.b % 8 == c.b / 32,
    ensures
        rgb8_color(snes_word(c)) == c,
{
    lemma_color_round_trip(c);
}

/// Expanding a word and packing the colour again gives the word back, without
/// its top bit.
pub proof fn lemma_word_round_trip(w: u16)
    ensures
        snes_word(rgb8_color(w)) == w % 0x8000,
{
    let r = w as int % 32;
    let g = (w as int / 32) % 32;
    let b = (w as int / 1024) % 32;
    assert(expand_channel(r) / 8 == r);
    assert(expand_channel(g) / 8 == g);
    assert(expand_channel(b) / 8 == b);
    assert(snes_word(rgb8_color(w)) == r + 32 * g + 1024 * b);
    assert(w % 32 + 32 * ((w / 32) % 32) + 1024 * ((w / 1024) % 32) == w % 0x8000)
        by (bit_vector);
}

/// An empty stream holds the empty palette.
pub proof fn lemma_empty_palette()
    ensures
        decode_colors::<Snes>(Seq::empty()) == Seq::<Color>::empty(),
{
}

/// A single byte after the last full colour word changes nothing: `2n + 1`
/// bytes hold the same palette as the first `2n` of them.
pub proof fn lemma_odd_byte_ignored(bytes: Seq<u8>, extra: u8)
    requires
        bytes.len() % 2 == 0,
    ensures
        decode_colors::<Snes>(bytes.push(extra)) == decode_colors::<Snes>(bytes),
{
    lemma_snes_decode(bytes);
    lemma_snes_decode(bytes.push(extra));
    assert(snes_colors(bytes.push(extra)) =~= snes_colors(bytes));
}

} // verus!
