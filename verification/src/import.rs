//! Importing pixel grids as tile sheets: by matching colours against a
//! reference palette strip, or by taking grey levels as indices.
use crate::buffer::{
    gray_grid, gray_height, gray_width, rgba_grid, rgba_height, rgba_pixels, rgba_width,
    GrayBuffer, RgbaBuffer,
};
use crate::color::{transparent, Color};
use crate::gfx::{sheet_grid, Graphics};
use crate::grid::{lemma_cell_position, Grid, GridView};
use vstd::arithmetic::div_mod::lemma_fundamental_div_mod_converse;
use vstd::prelude::*;

verus! {

/// How many pixels of a palette strip are read. Later ones never enter the
/// palette, whatever the bit depth in use.
pub const PALETTE_LIMIT: usize = 16;

/// A colour as palette matching sees it: all fully transparent colours count
/// as one.
pub open spec fn key_color(c: Color) -> Color {
    if c.a == 0 {
        transparent()
    } else {
        c
    }
}

/// The entries of the palette that a strip defines: the key colours of its
/// first 16 pixels, in order.
pub open spec fn palette_entries(strip: Seq<Color>) -> Seq<Color> {
    Seq::new(
        if strip.len() < PALETTE_LIMIT {
            strip.len()
        } else {
            PALETTE_LIMIT as nat
        },
        |i: int| key_color(strip[i]),
    )
}

/// The index that a palette gives a colour: the position of its first
/// occurrence among the entries, or `None` where it does not occur.
pub open spec fn index_of(entries: Seq<Color>, c: Color) -> Option<int>
    decreases entries.len(),
{
    if entries.len() == 0 {
        None
    } else {
        match index_of(entries.drop_last(), c) {
            Some(i) => Some(i),
            None => if entries.last() == c {
                Some(entries.len() - 1)
            } else {
                None
            },
        }
    }
}

/// `index_of` finds the first occurrence, and finds none only where there is
/// none.
pub proof fn lemma_index_of(entries: Seq<Color>, c: Color)
    ensures
        match index_of(entries, c) {
            Some(i) => 0 <= i < entries.len() && entries[i] == c && forall|j: int|
                0 <= j < i ==> entries[j] != c,
            None => forall|j: int| 0 <= j < entries.len() ==> entries[j] != c,
        },
    decreases entries.len(),
{
    if entries.len() > 0 {
        let front = entries.drop_last();
        lemma_index_of(front, c);
        assert forall|j: int| 0 <= j < front.len() implies front[j] == entries[j] by {}
    }
}

/// A pixel whose colour the palette does not hold.
#[derive(Clone, Copy, Debug, PartialEq, Eq, Structural)]
pub struct UnknownColor {
    /// The key colour that was looked up.
    pub color: Color,
    /// The column of the pixel in the grid that was imported.
    pub x: u32,
    /// The row of the pixel in the grid that was imported.
    pub y: u32,
}

/// The text that reports an unknown colour with samples `r`, `g`, `b`, `a` at
/// column `x` of row `y`.
pub uninterp spec fn unknown_color_text(r: u8, g: u8, b: u8, a: u8, x: u32, y: u32) -> Seq<char>;

/// `format!` with the four samples in upper-case hexadecimal and the position
/// in decimal. The text depends on these six numbers alone.
#[verifier::external_body]
fn format_unknown_color(r: u8, g: u8, b: u8, a: u8, x: u32, y: u32) -> (text: String)
    ensures
        text@ == unknown_color_text(r, g, b, a, x, y),
{
    format!("Unknown color Rgba({:X?}) at ({},{})", [r, g, b, a], x, y)
}

impl UnknownColor {
    /// The error as a line of text that names the colour and the position.
    pub fn message(&self) -> (text: String)
        ensures
            text@ == unknown_color_text(
                self.color.r,
                self.color.g,
                self.color.b,
                self.color.a,
                self.x,
                self.y,
            ),
    {
        format_unknown_color(
            self.color.r,
            self.color.g,
            self.color.b,
            self.color.a,
            self.x,
            self.y,
        )
    }
}

/// The palette of an import: colours in the order of their indices. It holds
/// at most 16 entries, and a colour that occurs twice has the index of its
/// first occurrence.
pub struct PaletteMap {
    entries: Vec<Color>,
}

impl View for PaletteMap {
    type V = Seq<Color>;

    closed spec fn view(&self) -> Seq<Color> {
        self.entries@
    }
}

impl PaletteMap {
    #[verifier::type_invariant]
    spec fn within_limit(self) -> bool {
        self.entries@.len() <= PALETTE_LIMIT
    }

    /// Reads the palette off a strip of pixels, from the left.
    pub fn from_strip(strip: &[Color]) -> (map: Self)
        ensures
            map@ == palette_entries(strip@),
    {
        let mut entries: Vec<Color> = Vec::new();
        let mut i: usize = 0;
        while i < strip.len() && i < PALETTE_LIMIT
            invariant
                i <= strip@.len(),
                i <= PALETTE_LIMIT,
                entries@.len() == i,
                forall|k: int| 0 <= k < i ==> entries@[k] == key_color(strip@[k]),
            decreases strip@.len() - i,
        {
            let c: Color = strip[i];
            let key: Color = if c.a == 0 {
                Color { r: 0, g: 0, b: 0, a: 0 }
            } else {
                c
            };
            entries.push(key);
            i += 1;
        }
        assert(entries@ =~= palette_entries(strip@));
        PaletteMap { entries }
    }

    /// The index of a key colour, or `None` where the palette does not hold
    /// it.
    pub fn get(&self, key: Color) -> (index: Option<u8>)
        ensures
            index_of(self@, key) == match index {
                Some(i) => Some(i as int),
                None => None,
            },
    {
        proof {
            use_type_invariant(self);
        }
        let mut i: usize = 0;
        while i < self.entries.len()
            invariant
                i <= self.entries@.len(),
                self.entries@.len() <= PALETTE_LIMIT,
                forall|j: int| 0 <= j < i ==> self.entries@[j] != key,
            decreases self.entries@.len() - i,
        {
            if self.entries[i] == key {
                proof {
                    lemma_index_of(self.entries@, key);
                }
                return Some(i as u8);
            }
            i += 1;
        }
        proof {
            lemma_index_of(self.entries@, key);
        }
        None
    }

    /// Looks up the pixel at (`x`, `y`): the index of its key colour, or the
    /// error that names the colour and the place.
    pub fn lookup(&self, pixel: Color, x: u32, y: u32) -> (r: Result<u8, UnknownColor>)
        ensures
            match index_of(self@, key_color(pixel)) {
                Some(i) => r == Ok::<u8, UnknownColor>(i as u8) && 0 <= i < PALETTE_LIMIT,
                None => r == Err::<u8, UnknownColor>(
                    UnknownColor { color: key_color(pixel), x, y },
                ),
            },
    {
        proof {
            use_type_invariant(self);
            lemma_index_of(self@, key_color(pixel));
        }
        let key: Color = if pixel.a == 0 {
            Color { r: 0, g: 0, b: 0, a: 0 }
        } else {
            pixel
        };
        match self.get(key) {
            Some(i) => Ok(i),
            None => Err(UnknownColor { color: key, x, y }),
        }
    }
}

/// The tiles of a grid of `tiles_wide` by `tiles_high` tiles in simple order:
/// row by row, each row from the left. A tile is given by its column and row.
pub open spec fn simple_order(tiles_wide: nat, tiles_high: nat) -> Seq<(nat, nat)> {
    Seq::new(
        tiles_wide * tiles_high,
        |t: int| ((t % tiles_wide as int) as nat, (t / tiles_wide as int) as nat),
    )
}

/// The tiles of a grid in interleaved order. The grid is cut into supertiles
/// of 8 by 8 tiles, taken row by row; tiles beyond the last whole supertile
/// in either direction are left out. A supertile gives its tile rows in the
/// order 0, 4, 1, 5, 2, 6, 3, 7: one row of its upper half, then the row of
/// its lower half that lies four below, each row from the left.
pub open spec fn interleaved_order(tiles_wide: nat, tiles_high: nat) -> Seq<(nat, nat)> {
    let across = tiles_wide / 8;
    let down = tiles_high / 8;
    Seq::new(
        64 * (across * down),
        |t: int|
            {
                let supertile = t / 64;
                let slot = t % 64;
                (
                    (8 * (supertile % across as int) + slot % 8) as nat,
                    (8 * (supertile / across as int) + slot / 16 + 4 * ((slot % 16) / 8)) as nat,
                )
            },
    )
}

/// The pixel positions that an import visits: the tiles in `order`, each tile
/// row by row from its top left corner. A position is a column and a row.
pub open spec fn scan(order: Seq<(nat, nat)>) -> Seq<(nat, nat)> {
    Seq::new(
        64 * order.len(),
        |n: int| ((8 * order[n / 64].0 + n % 8) as nat, (8 * order[n / 64].1 + (n % 64) / 8) as nat),
    )
}

/// The cells of a grid at the given positions.
pub open spec fn gathered<T>(img: GridView<T>, at: Seq<(nat, nat)>) -> Seq<T> {
    Seq::new(at.len(), |n: int| img.at(at[n].0 as int, at[n].1 as int))
}

/// Whether `indices` are the palette indices of the first pixels of `pixels`,
/// one for one.
pub open spec fn matched(indices: Seq<u8>, pixels: Seq<Color>, entries: Seq<Color>) -> bool {
    &&& indices.len() <= pixels.len()
    &&& forall|n: int|
        0 <= n < indices.len() ==> index_of(entries, key_color(#[trigger] pixels[n])) == Some(
            indices[n] as int,
        )
}

/// Whether `e` reports pixel `n` as the first one that the palette does not
/// hold, at the position where it was read.
pub open spec fn fails_at(
    e: UnknownColor,
    pixels: Seq<Color>,
    at: Seq<(nat, nat)>,
    entries: Seq<Color>,
    n: int,
) -> bool {
    &&& 0 <= n < pixels.len()
    &&& forall|m: int| 0 <= m < n ==> index_of(entries, key_color(#[trigger] pixels[m])) is Some
    &&& index_of(entries, key_color(pixels[n])) is None
    &&& e.color == key_color(pixels[n])
    &&& e.x == at[n].0
    &&& e.y == at[n].1
}

/// What an import by palette matching returns for the pixels of `img` at the
/// positions `at`: the index of every pixel, in order, where the palette
/// holds them all; else the first pixel that it does not hold.
pub open spec fn import_result(
    r: Result<Graphics, UnknownColor>,
    img: GridView<Color>,
    at: Seq<(nat, nat)>,
    entries: Seq<Color>,
) -> bool {
    match r {
        Ok(sheet) => sheet.0@.len() == at.len() && matched(sheet.0@, gathered(img, at), entries),
        Err(e) => exists|n: int| fails_at(e, gathered(img, at), at, entries, n),
    }
}

/// Both orders visit equally many tiles where the grid is made of whole
/// supertiles.
pub proof fn lemma_orders_of_whole_supertiles(tiles_wide: nat, tiles_high: nat)
    requires
        tiles_wide % 8 == 0,
        tiles_high % 8 == 0,
    ensures
        interleaved_order(tiles_wide, tiles_high).len() == simple_order(
            tiles_wide,
            tiles_high,
        ).len(),
{
    let across = tiles_wide / 8;
    let down = tiles_high / 8;
    assert(64 * (across * down) == (8 * across) * (8 * down)) by (nonlinear_arith);
}

/// Importing the picture of a sheet gives the sheet back: its whole tiles in
/// order, followed by tiles of index 0 for the places that the last row of
/// the picture has left.
pub proof fn lemma_sheet_picture_round_trip(indices: Seq<u8>)
    ensures
        ({
            let picture = sheet_grid(indices);
            let back = gathered(picture, scan(simple_order(16, picture.height / 8)));
            &&& back.len() == 128 * picture.height
            &&& forall|n: int|
                0 <= n < back.len() ==> #[trigger] back[n] == if n < 64 * (indices.len() / 64) {
                    indices[n]
                } else {
                    0u8
                }
        }),
{
    let picture = sheet_grid(indices);
    let tile_rows = picture.height / 8;
    let order = simple_order(16, tile_rows);
    let back = gathered(picture, scan(order));
    assert(picture.height == 8 * tile_rows);
    assert(order.len() == 16 * tile_rows);
    assert forall|n: int| 0 <= n < back.len() implies #[trigger] back[n] == if n < 64 * (
    indices.len() / 64) {
        indices[n]
    } else {
        0u8
    } by {
        let t = n / 64;
        let x = 8 * (t % 16) + n % 8;
        let y = 8 * (t / 16) + (n % 64) / 8;
        assert(order[t] == ((t % 16) as nat, (t / 16) as nat));
        assert(scan(order)[n] == (x as nat, y as nat));
        let k = y * 128 + x;
        lemma_fundamental_div_mod_converse(k, 128, y, x);
        assert(0 <= k < 128 * picture.height);
        assert(back[n] == picture.cells[k]);
        assert(16 * (y / 8) + x / 8 == t);
        assert(64 * t + 8 * (y % 8) + x % 8 == n);
    }
}

/// In simple order the tile in column `tx` of row `ty` comes at place
/// `ty * tiles_wide + tx`.
proof fn lemma_simple_order_at(tiles_wide: nat, tiles_high: nat, tx: int, ty: int)
    requires
        0 <= tx < tiles_wide,
        0 <= ty < tiles_high,
    ensures
        0 <= ty * tiles_wide + tx < simple_order(tiles_wide, tiles_high).len(),
        simple_order(tiles_wide, tiles_high)[ty * tiles_wide + tx] == (tx as nat, ty as nat),
{
    lemma_cell_position(tiles_wide, tiles_high, tx, ty);
}

/// In interleaved order the supertile in column `sx` of row `sy` gives the
/// tile in its column `ox`, in row `oy` of its upper (`half` 0) or lower
/// (`half` 1) half, at slot `16 * oy + 8 * half + ox`.
proof fn lemma_interleaved_order_at(
    tiles_wide: nat,
    tiles_high: nat,
    sx: int,
    sy: int,
    oy: int,
    half: int,
    ox: int,
)
    requires
        0 <= sx < tiles_wide / 8,
        0 <= sy < tiles_high / 8,
        0 <= oy < 4,
        0 <= half < 2,
        0 <= ox < 8,
    ensures
        ({
            let t = 64 * (sy * (tiles_wide / 8) + sx) + 16 * oy + 8 * half + ox;
            &&& 0 <= t < interleaved_order(tiles_wide, tiles_high).len()
            &&& interleaved_order(tiles_wide, tiles_high)[t] == (
                (8 * sx + ox) as nat,
                (8 * sy + oy + 4 * half) as nat,
            )
        }),
{
    let across = tiles_wide / 8;
    let down = tiles_high / 8;
    let s = sy * across + sx;
    let slot = 16 * oy + 8 * half + ox;
    let t = 64 * s + slot;
    lemma_cell_position(across, down, sx, sy);
    lemma_fundamental_div_mod_converse(t, 64, s, slot);
}

/// Appends the indices of one tile of `img` to `out`, or stops at its first
/// pixel that the palette does not hold. The tile is number `t` of `order`.
fn import_tile(
    img: &Grid<Color>,
    map: &PaletteMap,
    tx: u32,
    ty: u32,
    out: &mut Vec<u8>,
    Ghost(order): Ghost<Seq<(nat, nat)>>,
    Ghost(t): Ghost<int>,
) -> (r: Result<(), UnknownColor>)
    requires
        0 <= t < order.len(),
        order[t] == (tx as nat, ty as nat),
        8 * tx + 8 <= img@.width,
        8 * ty + 8 <= img@.height,
        old(out)@.len() == 64 * t,
        matched(old(out)@, gathered(img@, scan(order)), map@),
    ensures
        match r {
            Ok(_) => final(out)@.len() == 64 * (t + 1) && matched(
                final(out)@,
                gathered(img@, scan(order)),
                map@,
            ),
            Err(e) => exists|n: int| fails_at(e, gathered(img@, scan(order)), scan(order), map@, n),
        },
{
    let width: u32 = img.width();
    let height: u32 = img.height();
    let cells: &Vec<Color> = img.cells();
    let count: usize = cells.len();
    let ghost pixels = gathered(img@, scan(order));
    let mut i: u32 = 0;
    while i < 8
        invariant
            i <= 8,
            0 <= t < order.len(),
            order[t] == (tx as nat, ty as nat),
            width == img@.width,
            height == img@.height,
            cells@ == img@.cells,
            count == cells@.len(),
            img@.well_formed(),
            8 * tx + 8 <= width,
            8 * ty + 8 <= height,
            pixels == gathered(img@, scan(order)),
            out@.len() == 64 * t + 8 * i,
            matched(out@, pixels, map@),
        decreases 8 - i,
    {
        let mut j: u32 = 0;
        while j < 8
            invariant
                i < 8,
                j <= 8,
                0 <= t < order.len(),
                order[t] == (tx as nat, ty as nat),
                width == img@.width,
                height == img@.height,
                cells@ == img@.cells,
                count == cells@.len(),
                img@.well_formed(),
                8 * tx + 8 <= width,
                8 * ty + 8 <= height,
                pixels == gathered(img@, scan(order)),
                out@.len() == 64 * t + 8 * i + j,
                matched(out@, pixels, map@),
            decreases 8 - j,
        {
            let x: u32 = 8 * tx + j;
            let y: u32 = 8 * ty + i;
            let ghost n = 64 * t + 8 * i + j;
            proof {
                lemma_cell_position(width as nat, height as nat, x as int, y as int);
                assert(n / 64 == t && n % 64 == 8 * i + j);
                assert(scan(order)[n] == (x as nat, y as nat));
                assert(pixels[n] == img@.at(x as int, y as int));
                assert(y * width + x < count);
            }
            let pixel: Color = cells[(y as usize) * (width as usize) + (x as usize)];
            match map.lookup(pixel, x, y) {
                Ok(index) => {
                    let ghost before = out@;
                    out.push(index);
                    proof {
                        assert forall|m: int| 0 <= m < out@.len() implies index_of(
                            map@,
                            key_color(#[trigger] pixels[m]),
                        ) == Some(out@[m] as int) by {
                            if m < n {
                                assert(out@[m] == before[m]);
                            }
                        }
                    }
                },
                Err(e) => {
                    let r: Result<(), UnknownColor> = Err(e);
                    proof {
                        assert(fails_at(
                            r->Err_0,
                            gathered(img@, scan(order)),
                            scan(order),
                            map@,
                            n,
                        ));
                    }
                    return r;
                },
            }
            j += 1;
        }
        i += 1;
    }
    Ok(())
}

/// Appends the cells of one tile of `img` to `out`. The tile is number `t` of
/// `order`.
fn copy_tile(
    img: &Grid<u8>,
    tx: u32,
    ty: u32,
    out: &mut Vec<u8>,
    Ghost(order): Ghost<Seq<(nat, nat)>>,
    Ghost(t): Ghost<int>,
)
    requires
        0 <= t < order.len(),
        order[t] == (tx as nat, ty as nat),
        8 * tx + 8 <= img@.width,
        8 * ty + 8 <= img@.height,
        old(out)@ == gathered(img@, scan(order)).take(64 * t),
    ensures
        final(out)@ == gathered(img@, scan(order)).take(64 * (t + 1)),
{
    let width: u32 = img.width();
    let height: u32 = img.height();
    let cells: &Vec<u8> = img.cells();
    let count: usize = cells.len();
    let ghost pixels = gathered(img@, scan(order));
    let mut i: u32 = 0;
    while i < 8
        invariant
            i <= 8,
            0 <= t < order.len(),
            order[t] == (tx as nat, ty as nat),
            width == img@.width,
            height == img@.height,
            cells@ == img@.cells,
            count == cells@.len(),
            img@.well_formed(),
            8 * tx + 8 <= width,
            8 * ty + 8 <= height,
            pixels == gathered(img@, scan(order)),
            out@ == pixels.take(64 * t + 8 * i),
        decreases 8 - i,
    {
        let mut j: u32 = 0;
        while j < 8
            invariant
                i < 8,
                j <= 8,
                0 <= t < order.len(),
                order[t] == (tx as nat, ty as nat),
                width == img@.width,
                height == img@.height,
                cells@ == img@.cells,
                count == cells@.len(),
                img@.well_formed(),
                8 * tx + 8 <= width,
                8 * ty + 8 <= height,
                pixels == gathered(img@, scan(order)),
                out@ == pixels.take(64 * t + 8 * i + j),
            decreases 8 - j,
        {
            let x: u32 = 8 * tx + j;
            let y: u32 = 8 * ty + i;
            let ghost n = 64 * t + 8 * i + j;
            proof {
                lemma_cell_position(width as nat, height as nat, x as int, y as int);
                assert(n / 64 == t && n % 64 == 8 * i + j);
                assert(scan(order)[n] == (x as nat, y as nat));
                assert(pixels[n] == img@.at(x as int, y as int));
                assert(y * width + x < count);
            }
            out.push(cells[(y as usize) * (width as usize) + (x as usize)]);
            assert(out@ =~= pixels.take(n + 1));
            j += 1;
        }
        i += 1;
    }
}

impl Graphics {
    /// Imports `img` by matching its colours against the palette strip `pal`,
    /// tile by tile in simple order. Pixels right of the last whole tile
    /// column or below the last whole tile row are left out. Fails at the
    /// first pixel whose colour the palette does not hold.
    pub fn from_paletted_grid(img: &Grid<Color>, pal: &Grid<Color>) -> (r: Result<
        Self,
        UnknownColor,
    >)
        ensures
            import_result(
                r,
                img@,
                scan(simple_order(img@.width / 8, img@.height / 8)),
                palette_entries(pal@.cells),
            ),
    {
        let map: PaletteMap = PaletteMap::from_strip(pal.cells().as_slice());
        let ghost entries = palette_entries(pal@.cells);
        let tiles_wide: u32 = img.width() / 8;
        let tiles_high: u32 = img.height() / 8;
        let ghost order = simple_order(tiles_wide as nat, tiles_high as nat);
        let ghost pixels = gathered(img@, scan(order));
        let mut out: Vec<u8> = Vec::new();
        let mut ty: u32 = 0;
        while ty < tiles_high
            invariant
                ty <= tiles_high,
                tiles_wide == img@.width / 8,
                tiles_high == img@.height / 8,
                order == simple_order(tiles_wide as nat, tiles_high as nat),
                pixels == gathered(img@, scan(order)),
                out@.len() == 64 * (ty * tiles_wide),
                entries == palette_entries(pal@.cells),
                map@ == entries,
                matched(out@, pixels, map@),
            decreases tiles_high - ty,
        {
            let mut tx: u32 = 0;
            while tx < tiles_wide
                invariant
                    ty < tiles_high,
                    tx <= tiles_wide,
                    tiles_wide == img@.width / 8,
                    tiles_high == img@.height / 8,
                    order == simple_order(tiles_wide as nat, tiles_high as nat),
                    pixels == gathered(img@, scan(order)),
                    out@.len() == 64 * (ty * tiles_wide + tx),
                    entries == palette_entries(pal@.cells),
                    map@ == entries,
                    matched(out@, pixels, map@),
                decreases tiles_wide - tx,
            {
                proof {
                    lemma_simple_order_at(tiles_wide as nat, tiles_high as nat, tx as int, ty as int);
                }
                match import_tile(
                    img,
                    &map,
                    tx,
                    ty,
                    &mut out,
                    Ghost(order),
                    Ghost(ty * tiles_wide + tx),
                ) {
                    Ok(_) => {},
                    Err(e) => {
                        let r: Result<Self, UnknownColor> = Err(e);
                        proof {
                            let n = choose|n: int|
                                fails_at(e, gathered(img@, scan(order)), scan(order), map@, n);
                            assert(fails_at(
                                r->Err_0,
                                gathered(img@, scan(order)),
                                scan(order),
                                entries,
                                n,
                            ));
                        }
                        return r;
                    },
                }
                tx += 1;
            }
            assert((ty + 1) * tiles_wide == ty * tiles_wide + tiles_wide) by (nonlinear_arith);
            ty += 1;
        }
        assert(tiles_high * tiles_wide == tiles_wide * tiles_high) by (nonlinear_arith);
        Ok(Self(out))
    }

    /// Imports `img` by matching its colours against the palette strip `pal`,
    /// tile by tile in interleaved order. Pixels outside the whole supertiles
    /// are left out. Fails at the first pixel whose colour the palette does
    /// not hold.
    pub fn from_paletted_grid2(img: &Grid<Color>, pal: &Grid<Color>) -> (r: Result<
        Self,
        UnknownColor,
    >)
        ensures
            import_result(
                r,
                img@,
                scan(interleaved_order(img@.width / 8, img@.height / 8)),
                palette_entries(pal@.cells),
            ),
    {
        let map: PaletteMap = PaletteMap::from_strip(pal.cells().as_slice());
        let ghost entries = palette_entries(pal@.cells);
        let tiles_wide: u32 = img.width() / 8;
        let tiles_high: u32 = img.height() / 8;
        let across: u32 = tiles_wide / 8;
        let down: u32 = tiles_high / 8;
        let ghost order = interleaved_order(tiles_wide as nat, tiles_high as nat);
        let ghost pixels = gathered(img@, scan(order));
        let mut out: Vec<u8> = Vec::new();
        let mut sy: u32 = 0;
        while sy < down
            invariant
                sy <= down,
                tiles_wide == img@.width / 8,
                tiles_high == img@.height / 8,
                across == tiles_wide / 8,
                down == tiles_high / 8,
                order == interleaved_order(tiles_wide as nat, tiles_high as nat),
                pixels == gathered(img@, scan(order)),
                out@.len() == 64 * (64 * (sy * across)),
                entries == palette_entries(pal@.cells),
                map@ == entries,
                matched(out@, pixels, map@),
            decreases down - sy,
        {
            let mut sx: u32 = 0;
            while sx < across
                invariant
                    sy < down,
                    sx <= across,
                    tiles_wide == img@.width / 8,
                    tiles_high == img@.height / 8,
                    across == tiles_wide / 8,
                    down == tiles_high / 8,
                    order == interleaved_order(tiles_wide as nat, tiles_high as nat),
                    pixels == gathered(img@, scan(order)),
                    out@.len() == 64 * (64 * (sy * across + sx)),
                    entries == palette_entries(pal@.cells),
                    map@ == entries,
                    matched(out@, pixels, map@),
                decreases across - sx,
            {
                let ghost base = 64 * (sy * across + sx);
                let mut oy: u32 = 0;
                while oy < 4
                    invariant
                        sy < down,
                        sx < across,
                        oy <= 4,
                        tiles_wide == img@.width / 8,
                        tiles_high == img@.height / 8,
                        across == tiles_wide / 8,
                        down == tiles_high / 8,
                        order == interleaved_order(tiles_wide as nat, tiles_high as nat),
                        pixels == gathered(img@, scan(order)),
                        base == 64 * (sy * across + sx),
                        out@.len() == 64 * (base + 16 * oy),
                        entries == palette_entries(pal@.cells),
                        map@ == entries,
                        matched(out@, pixels, map@),
                    decreases 4 - oy,
                {
                    let mut half: u32 = 0;
                    while half < 2
                        invariant
                            sy < down,
                            sx < across,
                            oy < 4,
                            half <= 2,
                            tiles_wide == img@.width / 8,
                            tiles_high == img@.height / 8,
                            across == tiles_wide / 8,
                            down == tiles_high / 8,
                            order == interleaved_order(tiles_wide as nat, tiles_high as nat),
                            pixels == gathered(img@, scan(order)),
                            base == 64 * (sy * across + sx),
                            out@.len() == 64 * (base + 16 * oy + 8 * half),
                            entries == palette_entries(pal@.cells),
                            map@ == entries,
                            matched(out@, pixels, map@),
                        decreases 2 - half,
                    {
                        let mut ox: u32 = 0;
                        while ox < 8
                            invariant
                                sy < down,
                                sx < across,
                                oy < 4,
                                half < 2,
                                ox <= 8,
                                tiles_wide == img@.width / 8,
                                tiles_high == img@.height / 8,
                                across == tiles_wide / 8,
                                down == tiles_high / 8,
                                order == interleaved_order(tiles_wide as nat, tiles_high as nat),
                                pixels == gathered(img@, scan(order)),
                                base == 64 * (sy * across + sx),
                                out@.len() == 64 * (base + 16 * oy + 8 * half + ox),
                                entries == palette_entries(pal@.cells),
                                map@ == entries,
                                matched(out@, pixels, map@),
                            decreases 8 - ox,
                        {
                            proof {
                                lemma_interleaved_order_at(
                                    tiles_wide as nat,
                                    tiles_high as nat,
                                    sx as int,
                                    sy as int,
                                    oy as int,
                                    half as int,
                                    ox as int,
                                );
                            }
                            match import_tile(
                                img,
                                &map,
                                8 * sx + ox,
                                8 * sy + oy + 4 * half,
                                &mut out,
                                Ghost(order),
                                Ghost(base + 16 * oy + 8 * half + ox),
                            ) {
                                Ok(_) => {},
                                Err(e) => {
                                    let r: Result<Self, UnknownColor> = Err(e);
                                    proof {
                                        let n = choose|n: int|
                                            fails_at(
                                                e,
                                                gathered(img@, scan(order)),
                                                scan(order),
                                                map@,
                                                n,
                                            );
                                        assert(fails_at(
                                            r->Err_0,
                                            gathered(img@, scan(order)),
                                            scan(order),
                                            entries,
                                            n,
                                        ));
                                    }
                                    return r;
                                },
                            }
                            ox += 1;
                        }
                        half += 1;
                    }
                    oy += 1;
                }
                sx += 1;
            }
            assert((sy + 1) * across == sy * across + across) by (nonlinear_arith);
            sy += 1;
        }
        assert(down * across == across * down) by (nonlinear_arith);
        Ok(Self(out))
    }

    /// Imports an image that carries its own palette: the first pixels of its
    /// top 16 rows are the palette strip, the rows from row 16 on are the
    /// tiles, taken in simple order. Positions in an error count from row 16.
    pub fn from_headered_grid(img: &Grid<Color>) -> (r: Result<Self, UnknownColor>)
        ensures
            ({
                let bottom = img@.rows(16, img@.height);
                import_result(
                    r,
                    bottom,
                    scan(simple_order(bottom.width / 8, bottom.height / 8)),
                    palette_entries(img@.rows(0, 16).cells),
                )
            }),
    {
        let top: Grid<Color> = img.rows(0, 16);
        let bottom: Grid<Color> = img.rows(16, img.height());
        Self::from_paletted_grid(&bottom, &top)
    }

    /// Imports an image that carries its own palette, as `from_headered_grid`
    /// does, with the tiles taken in interleaved order.
    pub fn from_headered_grid2(img: &Grid<Color>) -> (r: Result<Self, UnknownColor>)
        ensures
            ({
                let bottom = img@.rows(16, img@.height);
                import_result(
                    r,
                    bottom,
                    scan(interleaved_order(bottom.width / 8, bottom.height / 8)),
                    palette_entries(img@.rows(0, 16).cells),
                )
            }),
    {
        let top: Grid<Color> = img.rows(0, 16);
        let bottom: Grid<Color> = img.rows(16, img.height());
        Self::from_paletted_grid2(&bottom, &top)
    }

    /// Imports a grid of grey levels, taking each level as a palette index,
    /// tile by tile in simple order. Pixels right of the last whole tile
    /// column or below the last whole tile row are left out.
    pub fn from_index_grid(img: &Grid<u8>) -> (sheet: Self)
        ensures
            sheet.0@ == gathered(img@, scan(simple_order(img@.width / 8, img@.height / 8))),
    {
        let tiles_wide: u32 = img.width() / 8;
        let tiles_high: u32 = img.height() / 8;
        let ghost order = simple_order(tiles_wide as nat, tiles_high as nat);
        let ghost pixels = gathered(img@, scan(order));
        let mut out: Vec<u8> = Vec::new();
        let mut ty: u32 = 0;
        assert(out@ =~= pixels.take(0));
        while ty < tiles_high
            invariant
                ty <= tiles_high,
                tiles_wide == img@.width / 8,
                tiles_high == img@.height / 8,
                order == simple_order(tiles_wide as nat, tiles_high as nat),
                pixels == gathered(img@, scan(order)),
                out@ == pixels.take(64 * (ty * tiles_wide)),
            decreases tiles_high - ty,
        {
            let mut tx: u32 = 0;
            while tx < tiles_wide
                invariant
                    ty < tiles_high,
                    tx <= tiles_wide,
                    tiles_wide == img@.width / 8,
                    tiles_high == img@.height / 8,
                    order == simple_order(tiles_wide as nat, tiles_high as nat),
                    pixels == gathered(img@, scan(order)),
                    out@ == pixels.take(64 * (ty * tiles_wide + tx)),
                decreases tiles_wide - tx,
            {
                proof {
                    lemma_simple_order_at(tiles_wide as nat, tiles_high as nat, tx as int, ty as int);
                }
                copy_tile(img, tx, ty, &mut out, Ghost(order), Ghost(ty * tiles_wide + tx));
                tx += 1;
            }
            assert((ty + 1) * tiles_wide == ty * tiles_wide + tiles_wide) by (nonlinear_arith);
            ty += 1;
        }
        assert(tiles_high * tiles_wide == tiles_wide * tiles_high) by (nonlinear_arith);
        assert(pixels.take(64 * (tiles_high * tiles_wide)) =~= pixels);
        Self(out)
    }
}

impl Graphics {
    /// Imports the image `img` by matching its colours against the palette
    /// strip `pal`, as `from_paletted_grid` does.
    pub fn from_paletted_image(img: &RgbaBuffer, pal: &RgbaBuffer) -> (r: Result<
        Self,
        UnknownColor,
    >)
        ensures
            import_result(
                r,
                rgba_grid(*img),
                scan(simple_order(rgba_width(*img) / 8, rgba_height(*img) / 8)),
                palette_entries(rgba_pixels(*pal)),
            ),
    {
        Self::from_paletted_grid(&img.to_grid(), &pal.to_grid())
    }

    /// Imports the image `img` by matching its colours against the palette
    /// strip `pal`, as `from_paletted_grid2` does.
    pub fn from_paletted_image2(img: &RgbaBuffer, pal: &RgbaBuffer) -> (r: Result<
        Self,
        UnknownColor,
    >)
        ensures
            import_result(
                r,
                rgba_grid(*img),
                scan(interleaved_order(rgba_width(*img) / 8, rgba_height(*img) / 8)),
                palette_entries(rgba_pixels(*pal)),
            ),
    {
        Self::from_paletted_grid2(&img.to_grid(), &pal.to_grid())
    }

    /// Imports an image that carries its own palette, as `from_headered_grid`
    /// does.
    pub fn from_headered_image(img: &RgbaBuffer) -> (r: Result<Self, UnknownColor>)
        ensures
            ({
                let bottom = rgba_grid(*img).rows(16, rgba_height(*img));
                import_result(
                    r,
                    bottom,
                    scan(simple_order(bottom.width / 8, bottom.height / 8)),
                    palette_entries(rgba_grid(*img).rows(0, 16).cells),
                )
            }),
    {
        Self::from_headered_grid(&img.to_grid())
    }

    /// Imports an image that carries its own palette, as
    /// `from_headered_grid2` does.
    pub fn from_headered_image2(img: &RgbaBuffer) -> (r: Result<Self, UnknownColor>)
        ensures
            ({
                let bottom = rgba_grid(*img).rows(16, rgba_height(*img));
                import_result(
                    r,
                    bottom,
                    scan(interleaved_order(bottom.width / 8, bottom.height / 8)),
                    palette_entries(rgba_grid(*img).rows(0, 16).cells),
                )
            }),
    {
        Self::from_headered_grid2(&img.to_grid())
    }

    /// Imports a grey image, taking each grey level as a palette index, as
    /// `from_index_grid` does.
    pub fn from_image(img: &GrayBuffer) -> (sheet: Self)
        ensures
            sheet.0@ == gathered(
                gray_grid(*img),
                scan(simple_order(gray_width(*img) / 8, gray_height(*img) / 8)),
            ),
    {
        Self::from_index_grid(&img.to_grid())
    }
}

} // verus!
