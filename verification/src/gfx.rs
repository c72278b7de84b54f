//! Tile graphics: 8x8 tiles of palette indices and their planar packed form.
use crate::bits::{
    bit, byte_from_bits, lemma_bit_double, lemma_bit_extract, lemma_bit_of_byte_from_bits,
    lemma_bit_or_shift, lemma_bit_top, lemma_bit_zero, lemma_byte_from_its_bits,
    lemma_bytes_equal_by_bits, lemma_small_byte_bits,
};
use crate::buffer::{gray_grid, GrayBuffer};
use crate::grid::{Grid, GridView};
use vstd::arithmetic::div_mod::{
    lemma_basic_div, lemma_fundamental_div_mod, lemma_fundamental_div_mod_converse,
    lemma_mod_bound, lemma_small_mod,
};
use vstd::prelude::*;

verus! {

/// Where a packed tile of `depth` planes keeps the byte of `plane` for `row`.
///
/// Planes come in pairs of 16 bytes; within a pair each row has two bytes, the
/// even plane first. With an odd `depth` the last plane stands alone after the
/// last pair, one byte per row.
pub open spec fn plane_offset(depth: int, plane: int, row: int) -> int {
    if depth % 2 == 1 && plane == depth - 1 {
        8 * plane + row
    } else {
        16 * (plane / 2) + 2 * row + plane % 2
    }
}

/// The index at (`row`, `col`) of the tile packed in `packed`: its bit `i` is
/// bit `7 - col` of the byte of plane `i` for that row, so the leftmost pixel
/// sits in the top bit of each plane byte. Planes from the eighth on do not
/// fit an index and are left out.
pub open spec fn unpack_pixel(packed: Seq<u8>, depth: int, row: int, col: int) -> u8 {
    byte_from_bits(|i: int| i < depth && bit(packed[plane_offset(depth, i, row)], 7 - col))
}

/// The 64 indices of the tile packed in the first `8 * depth` bytes of
/// `packed`, row by row.
pub open spec fn unpack_tile(packed: Seq<u8>, depth: int) -> Seq<u8> {
    Seq::new(64, |p: int| unpack_pixel(packed, depth, p / 8, p % 8))
}

/// The byte of `plane` for `row` of a tile: bit `plane` of each of the row's
/// eight indices, the leftmost in the top bit.
pub open spec fn row_byte(tile: Seq<u8>, row: int, plane: int) -> u8 {
    byte_from_bits(|k: int| bit(tile[8 * row + 7 - k], plane))
}

/// The packed form of the tile in the first 64 indices of `tile`: 16 bytes for
/// each full pair of planes. The last plane of an odd `depth` is not written.
pub open spec fn pack_tile(tile: Seq<u8>, depth: int) -> Seq<u8> {
    Seq::new(
        (16 * (depth / 2)) as nat,
        |n: int| row_byte(tile, (n % 16) / 2, 2 * (n / 16) + n % 2),
    )
}

/// Unpacks one tile: reads `8 * DEPTH` bytes of planar data from the front of
/// `input` and writes the 64 indices to the front of `output`, row by row.
pub fn tile_from_bitplane<const DEPTH: usize>(input: &[u8], output: &mut [u8])
    requires
        input@.len() >= 8 * DEPTH,
        old(output)@.len() >= 64,
    ensures
        final(output)@.len() == old(output)@.len(),
        final(output)@.subrange(0, 64) == unpack_tile(input@, DEPTH as int),
        forall|p: int| 64 <= p < old(output)@.len() ==> final(output)@[p] == old(output)@[p],
{
    let planes: usize = if DEPTH < 8 {
        DEPTH
    } else {
        8
    };
    let odd: bool = DEPTH % 2 == 1;
    let mut row: usize = 0;
    while row < 8
        invariant
            row <= 8,
            planes <= 8,
            planes <= DEPTH,
            DEPTH < 8 ==> planes == DEPTH,
            DEPTH >= 8 ==> planes == 8,
            odd == (DEPTH % 2 == 1),
            input@.len() >= 8 * DEPTH,
            output@.len() == old(output)@.len(),
            output@.len() >= 64,
            forall|p: int|
                0 <= p < 8 * row ==> output@[p] == unpack_pixel(
                    input@,
                    DEPTH as int,
                    p / 8,
                    p % 8,
                ),
            forall|p: int| 64 <= p < old(output)@.len() ==> output@[p] == old(output)@[p],
        decreases 8 - row,
    {
        let mut col: usize = 0;
        while col < 8
            invariant
                row < 8,
                col <= 8,
                planes <= 8,
                planes <= DEPTH,
                DEPTH < 8 ==> planes == DEPTH,
                DEPTH >= 8 ==> planes == 8,
                odd == (DEPTH % 2 == 1),
                input@.len() >= 8 * DEPTH,
                output@.len() == old(output)@.len(),
                output@.len() >= 64,
                forall|p: int|
                    0 <= p < 8 * row + col ==> output@[p] == unpack_pixel(
                        input@,
                        DEPTH as int,
                        p / 8,
                        p % 8,
                    ),
                forall|p: int| 64 <= p < old(output)@.len() ==> output@[p] == old(output)@[p],
            decreases 8 - col,
        {
            let ghost wanted = |i: int|
                i < DEPTH as int && bit(
                    input@[plane_offset(DEPTH as int, i, row as int)],
                    7 - col as int,
                );
            let shift: u8 = (7 - col) as u8;
            let mut pixel: u8 = 0;
            let mut i: usize = 0;
            proof {
                assert forall|k: int| 0 <= k < 8 implies !bit(pixel, k) by {
                    lemma_bit_zero(k);
                }
            }
            while i < planes
                invariant
                    row < 8,
                    col < 8,
                    i <= planes,
                    planes <= 8,
                    planes <= DEPTH,
                    odd == (DEPTH % 2 == 1),
                    shift == 7 - col,
                    input@.len() >= 8 * DEPTH,
                    wanted == (|i: int|
                        i < DEPTH as int && bit(
                            input@[plane_offset(DEPTH as int, i, row as int)],
                            7 - col as int,
                        )),
                    forall|k: int| 0 <= k < 8 ==> bit(pixel, k) == (k < i && wanted(k)),
                decreases planes - i,
            {
                let at: usize = if odd && i == DEPTH - 1 {
                    8 * i + row
                } else {
                    16 * (i / 2) + 2 * row + i % 2
                };
                assert(at == plane_offset(DEPTH as int, i as int, row as int));
                let b: u8 = (input[at] >> shift) & 1;
                let ghost before = pixel;
                pixel = pixel | (b << (i as u8));
                proof {
                    lemma_bit_extract(input@[at as int], shift);
                    assert forall|k: int| 0 <= k < 8 implies bit(pixel, k) == (k < i + 1 && wanted(
                        k,
                    )) by {
                        lemma_bit_or_shift(before, b, i as u8, k);
                    }
                }
                i += 1;
            }
            proof {
                lemma_byte_from_its_bits(pixel, wanted);
            }
            output[row * 8 + col] = pixel;
            col += 1;
        }
        row += 1;
    }
    assert(output@.subrange(0, 64) =~= unpack_tile(input@, DEPTH as int));
}

/// The byte of `plane` for `row` of the tile in `bitmap`.
fn get_bitrow(plane: usize, bitmap: &[u8], row: usize) -> (byte: u8)
    requires
        bitmap@.len() >= 64,
        row < 8,
    ensures
        byte == row_byte(bitmap@, row as int, plane as int),
{
    let ghost wanted = |k: int| bit(bitmap@[8 * row as int + 7 - k], plane as int);
    if plane >= 8 {
        proof {
            assert forall|k: int| 0 <= k < 8 implies bit(0u8, k) == wanted(k) by {
                lemma_bit_zero(k);
            }
            lemma_byte_from_its_bits(0u8, wanted);
        }
        return 0;
    }
    let mut acc: u8 = 0;
    let mut j: usize = 0;
    proof {
        assert forall|k: int| 0 <= k < 8 implies !bit(acc, k) by {
            lemma_bit_zero(k);
        }
    }
    while j < 8
        invariant
            j <= 8,
            row < 8,
            plane < 8,
            bitmap@.len() >= 64,
            forall|k: int|
                0 <= k < 8 ==> bit(acc, k) == (k < j && bit(
                    bitmap@[8 * row as int + j as int - 1 - k],
                    plane as int,
                )),
        decreases 8 - j,
    {
        let e: u8 = (bitmap[8 * row + j] >> (plane as u8)) & 1;
        let ghost before = acc;
        proof {
            lemma_bit_extract(bitmap@[8 * row as int + j as int], plane as u8);
            lemma_bit_top(acc);
            assert(!bit(acc, 7));
            lemma_bit_double(acc, e, 0);
        }
        acc = 2 * acc + e;
        proof {
            assert forall|k: int| 0 <= k < 8 implies bit(acc, k) == (k < j + 1 && bit(
                bitmap@[8 * row as int + j as int - k],
                plane as int,
            )) by {
                lemma_bit_double(before, e, k);
            }
        }
        j += 1;
    }
    proof {
        lemma_byte_from_its_bits(acc, wanted);
    }
    acc
}

/// Packs one tile: appends to `f` the planar form of the 64 indices in
/// `bitmap`, 16 bytes for each full pair of planes.
pub fn write_bitplanes<const DEPTH: usize>(bitmap: &[u8], f: &mut Vec<u8>)
    requires
        bitmap@.len() == 64,
    ensures
        final(f)@ == old(f)@ + pack_tile(bitmap@, DEPTH as int),
{
    let pairs: usize = DEPTH / 2;
    let ghost packed = pack_tile(bitmap@, DEPTH as int);
    let mut pair: usize = 0;
    while pair < pairs
        invariant
            pair <= pairs,
            pairs == DEPTH / 2,
            bitmap@.len() == 64,
            packed == pack_tile(bitmap@, DEPTH as int),
            f@ == old(f)@ + packed.take(16 * pair),
        decreases pairs - pair,
    {
        let mut row: usize = 0;
        while row < 8
            invariant
                pair < pairs,
                pairs == DEPTH / 2,
                row <= 8,
                bitmap@.len() == 64,
                packed == pack_tile(bitmap@, DEPTH as int),
                f@ == old(f)@ + packed.take(16 * pair + 2 * row),
            decreases 8 - row,
        {
            let low: u8 = get_bitrow(pair * 2, bitmap, row);
            let high: u8 = get_bitrow(pair * 2 + 1, bitmap, row);
            f.push(low);
            f.push(high);
            proof {
                let n = 16 * pair + 2 * row;
                assert(packed[n] == low);
                assert(packed[n + 1] == high);
                assert(f@ =~= old(f)@ + packed.take(n + 2));
            }
            row += 1;
        }
        pair += 1;
    }
    assert(packed.take(16 * pairs as int) =~= packed);
}

/// A tile format: how a block of indices is read off the front of a byte
/// stream and how one is written. What is read or written depends on the
/// bytes alone, as `unpack` and `pack` say.
pub trait Format {
    /// What `from_buf` finds at the front of packed `input`: the indices it
    /// holds and the number of bytes that hold them, or `None` where `input`
    /// holds no further block.
    spec fn unpack(input: Seq<u8>) -> Option<(Seq<u8>, nat)>;

    /// What `to_buf` makes of the front of the indices in `input`: the packed
    /// bytes and the number of indices packed, or `None` where `input` holds
    /// no further block.
    spec fn pack(input: Seq<u8>) -> Option<(Seq<u8>, nat)>;

    /// A block that is unpacked takes up at least one byte, and no more than
    /// there are.
    proof fn unpack_consumes(input: Seq<u8>)
        ensures
            Self::unpack(input) matches Some((_, n)) ==> 0 < n <= input.len(),
    ;

    /// A block that is packed takes up at least one index, and no more than
    /// there are.
    proof fn pack_consumes(input: Seq<u8>)
        ensures
            Self::pack(input) matches Some((_, n)) ==> 0 < n <= input.len(),
    ;

    /// Unpacks one block from the front of `input` to the end of `output` and
    /// moves `input` past it. Returns `false`, and changes nothing, where no
    /// block is left.
    fn from_buf(&mut self, input: &mut &[u8], output: &mut Vec<u8>) -> (more: bool)
        ensures
            match Self::unpack(old(input)@) {
                Some((indices, n)) => more && final(input)@ == old(input)@.skip(n as int)
                    && final(output)@ == old(output)@ + indices,
                None => !more && final(input)@ == old(input)@ && final(output)@ == old(output)@,
            },
    ;

    /// Packs one block from the front of `input` to the end of `output` and
    /// moves `input` past it. Returns `false`, and changes nothing, where no
    /// block is left.
    fn to_buf(&mut self, input: &mut &[u8], output: &mut Vec<u8>) -> (more: bool)
        ensures
            match Self::pack(old(input)@) {
                Some((bytes, n)) => more && final(input)@ == old(input)@.skip(n as int)
                    && final(output)@ == old(output)@ + bytes,
                None => !more && final(input)@ == old(input)@ && final(output)@ == old(output)@,
            },
    ;
}

/// All indices that format `F` unpacks from `input`, block after block, until
/// it finds no further block.
pub open spec fn unpack_all<F: Format>(input: Seq<u8>) -> Seq<u8>
    decreases input.len(),
{
    match F::unpack(input) {
        Some((indices, n)) => if 0 < n <= input.len() {
            indices + unpack_all::<F>(input.skip(n as int))
        } else {
            Seq::empty()
        },
        None => Seq::empty(),
    }
}

/// All bytes that format `F` packs from the indices in `input`, block after
/// block, until it finds no further block.
pub open spec fn pack_all<F: Format>(input: Seq<u8>) -> Seq<u8>
    decreases input.len(),
{
    match F::pack(input) {
        Some((bytes, n)) => if 0 < n <= input.len() {
            bytes + pack_all::<F>(input.skip(n as int))
        } else {
            Seq::empty()
        },
        None => Seq::empty(),
    }
}

/// The console's planar tile format with `DEPTH` bit planes: `8 * DEPTH`
/// bytes for each tile of 64 indices, tile after tile, with no header.
pub struct Snes<const DEPTH: usize>;

impl<const DEPTH: usize> Format for Snes<DEPTH> {
    /// A tile is unpacked while `8 * DEPTH` bytes are left. A format without
    /// planes holds no tiles.
    open spec fn unpack(input: Seq<u8>) -> Option<(Seq<u8>, nat)> {
        if DEPTH == 0 || input.len() < 8 * DEPTH {
            None
        } else {
            Some((unpack_tile(input, DEPTH as int), (8 * DEPTH) as nat))
        }
    }

    /// A tile is packed while 64 indices are left.
    open spec fn pack(input: Seq<u8>) -> Option<(Seq<u8>, nat)> {
        if input.len() < 64 {
            None
        } else {
            Some((pack_tile(input, DEPTH as int), 64nat))
        }
    }

    proof fn unpack_consumes(input: Seq<u8>) {
    }

    proof fn pack_consumes(input: Seq<u8>) {
    }

    fn from_buf(&mut self, input: &mut &[u8], output: &mut Vec<u8>) -> (more: bool) {
        if DEPTH == 0 || input.len() / 8 < DEPTH {
            return false;
        }
        let len: usize = 8 * DEPTH;
        let mut buf: Vec<u8> = Vec::new();
        while buf.len() < 64
            invariant
                buf@.len() <= 64,
            decreases 64 - buf@.len(),
        {
            buf.push(0);
        }
        tile_from_bitplane::<DEPTH>(input, buf.as_mut_slice());
        assert(buf@ =~= buf@.subrange(0, 64));
        let (_, rest) = input.split_at(len);
        *input = rest;
        output.append(&mut buf);
        true
    }

    fn to_buf(&mut self, input: &mut &[u8], output: &mut Vec<u8>) -> (more: bool) {
        if input.len() < 64 {
            return false;
        }
        let (tile, rest) = input.split_at(64);
        proof {
            lemma_pack_reads_tile(tile@, input@, DEPTH as int);
        }
        write_bitplanes::<DEPTH>(tile, output);
        *input = rest;
        true
    }
}

/// A sheet of tiles: palette indices, 64 for each 8x8 tile in row-major
/// order, tile after tile.
pub struct Graphics(pub Vec<u8>);

impl Graphics {
    /// Packs the sheet in format `f` and appends the bytes to `output`.
    /// Indices at the end that fill no block are left out.
    pub fn to_format<F: Format>(&self, f: F, output: &mut Vec<u8>)
        ensures
            final(output)@ == old(output)@ + pack_all::<F>(self.0@),
    {
        let mut f = f;
        let mut rest: &[u8] = self.0.as_slice();
        loop
            invariant
                output@ + pack_all::<F>(rest@) == old(output)@ + pack_all::<F>(self.0@),
            ensures
                output@ == old(output)@ + pack_all::<F>(self.0@),
            decreases rest@.len(),
        {
            let ghost before = rest@;
            let ghost done = output@;
            proof {
                F::pack_consumes(before);
            }
            if f.to_buf(&mut rest, output) {
                assert(output@ + pack_all::<F>(rest@) =~= done + pack_all::<F>(before));
            } else {
                assert(output@ + pack_all::<F>(before) =~= output@);
                break ;
            }
        }
    }

    /// Unpacks a whole sheet from `input` in format `f`. Bytes at the end
    /// that fill no block are ignored.
    pub fn from_format<F: Format>(f: F, input: &[u8]) -> (g: Self)
        ensures
            g.0@ == unpack_all::<F>(input@),
    {
        let mut f = f;
        let mut rest: &[u8] = input;
        let mut buf: Vec<u8> = Vec::new();
        loop
            invariant
                buf@ + unpack_all::<F>(rest@) == unpack_all::<F>(input@),
            ensures
                buf@ == unpack_all::<F>(input@),
            decreases rest@.len(),
        {
            let ghost before = rest@;
            let ghost done = buf@;
            proof {
                F::unpack_consumes(before);
            }
            if f.from_buf(&mut rest, &mut buf) {
                assert(buf@ + unpack_all::<F>(rest@) =~= done + unpack_all::<F>(before));
            } else {
                assert(buf@ + unpack_all::<F>(before) =~= buf@);
                break ;
            }
        }
        Self(buf)
    }
}

/// How many tiles stand side by side in the picture of a sheet.
pub const SHEET_COLUMNS: u32 = 16;

/// How many rows of pixels the picture of a sheet of `len` indices has: 8 for
/// each row of 16 tiles, the last of which may be partly filled.
pub open spec fn sheet_rows(len: nat) -> nat {
    8 * ((len / 64 + 15) / 16)
}

/// The picture of a sheet: its whole tiles laid out 16 to a row, from the top
/// left. Tile `t` stands in column `t % 16` of tile row `t / 16`; the cells of
/// the last row that no tile covers hold index 0.
pub open spec fn sheet_grid(indices: Seq<u8>) -> GridView<u8> {
    GridView {
        width: 128,
        height: sheet_rows(indices.len()),
        cells: Seq::new(
            128 * sheet_rows(indices.len()),
            |k: int|
                {
                    let x = k % 128;
                    let y = k / 128;
                    let t = 16 * (y / 8) + x / 8;
                    if t < indices.len() / 64 {
                        indices[64 * t + 8 * (y % 8) + x % 8]
                    } else {
                        0u8
                    }
                },
        ),
    }
}

impl Graphics {
    /// Tile `idx` of the sheet as a grid of 8 by 8, or `None` where the sheet
    /// has no such whole tile.
    pub fn tile_grid(&self, idx: usize) -> (tile: Option<Grid<u8>>)
        ensures
            tile is Some <==> 64 * idx + 64 <= self.0@.len(),
            tile matches Some(g) ==> g@ == (GridView {
                width: 8,
                height: 8,
                cells: self.0@.subrange(64 * idx, 64 * idx + 64),
            }),
    {
        if idx >= self.0.len() / 64 {
            return None;
        }
        let start: usize = 64 * idx;
        let mut cells: Vec<u8> = Vec::new();
        let mut p: usize = 0;
        while p < 64
            invariant
                p <= 64,
                start == 64 * idx,
                start + 64 <= self.0@.len(),
                cells@ == self.0@.subrange(start as int, start + p),
            decreases 64 - p,
        {
            cells.push(self.0[start + p]);
            assert(cells@ =~= self.0@.subrange(start as int, start + p + 1));
            p += 1;
        }
        Grid::new(8, 8, cells)
    }

    /// The picture of the sheet: its whole tiles laid out 16 to a row.
    pub fn to_grid(&self) -> (img: Grid<u8>)
        requires
            self.0@.len() / 64 + 15 <= u32::MAX,
            128 * sheet_rows(self.0@.len()) <= usize::MAX,
        ensures
            img@ == sheet_grid(self.0@),
    {
        let len: usize = self.0.len();
        let tiles: usize = len / 64;
        let height: u32 = (tiles as u32 + 15) / SHEET_COLUMNS * 8;
        let ghost wanted = sheet_grid(self.0@).cells;
        let mut cells: Vec<u8> = Vec::new();
        let mut y: u32 = 0;
        assert(cells@ =~= wanted.take(0));
        while y < height
            invariant
                y <= height,
                len == self.0@.len(),
                tiles == self.0@.len() / 64,
                height == sheet_rows(self.0@.len()),
                wanted == sheet_grid(self.0@).cells,
                cells@ == wanted.take(128 * y),
            decreases height - y,
        {
            let mut x: u32 = 0;
            while x < 128
                invariant
                    y < height,
                    x <= 128,
                    len == self.0@.len(),
                    tiles == self.0@.len() / 64,
                    height == sheet_rows(self.0@.len()),
                    wanted == sheet_grid(self.0@).cells,
                    cells@ == wanted.take(128 * y + x),
                decreases 128 - x,
            {
                let t: usize = 16 * (y as usize / 8) + (x as usize / 8);
                assert(t < tiles ==> 64 * t + 64 <= len);
                let index: u8 = if t < tiles {
                    self.0[64 * t + 8 * (y as usize % 8) + (x as usize % 8)]
                } else {
                    0
                };
                let ghost k = 128 * y + x;
                assert(k / 128 == y && k % 128 == x);
                cells.push(index);
                assert(cells@ =~= wanted.take(k + 1));
                x += 1;
            }
            y += 1;
        }
        assert(wanted.take(128 * height) =~= wanted);
        Grid::new(128, height, cells).unwrap()
    }
}

impl Graphics {
    /// Tile `idx` of the sheet as an image of 8 by 8 pixels, or `None` where
    /// the sheet has no such whole tile.
    pub fn tile(&self, idx: usize) -> (tile: Option<GrayBuffer>)
        ensures
            tile is Some <==> 64 * idx + 64 <= self.0@.len(),
            tile matches Some(b) ==> gray_grid(b) == (GridView {
                width: 8,
                height: 8,
                cells: self.0@.subrange(64 * idx, 64 * idx + 64),
            }),
    {
        match self.tile_grid(idx) {
            Some(grid) => Some(GrayBuffer::from_grid(grid)),
            None => None,
        }
    }

    /// The picture of the sheet as an image: its whole tiles laid out 16 to
    /// a row, each index as a grey level.
    pub fn to_image(&self) -> (img: GrayBuffer)
        requires
            self.0@.len() / 64 + 15 <= u32::MAX,
            128 * sheet_rows(self.0@.len()) <= usize::MAX,
        ensures
            gray_grid(img) == sheet_grid(self.0@),
    {
        GrayBuffer::from_grid(self.to_grid())
    }
}

/// Bit `i` of an unpacked index is bit `7 - col` of the byte of plane `i`
/// for its row; from bit `depth` on the index is clear.
pub proof fn lemma_unpack_pixel_bit(packed: Seq<u8>, depth: int, row: int, col: int, i: int)
    requires
        0 <= i < 8,
    ensures
        bit(unpack_pixel(packed, depth, row, col), i) == (i < depth && bit(
            packed[plane_offset(depth, i, row)],
            7 - col,
        )),
{
    lemma_bit_of_byte_from_bits(
        |i: int| i < depth && bit(packed[plane_offset(depth, i, row)], 7 - col),
        i,
    );
}

/// Bit `7 - col` of a packed row byte is bit `plane` of the index in column
/// `col` of that row.
pub proof fn lemma_row_byte_bit(tile: Seq<u8>, row: int, plane: int, col: int)
    requires
        0 <= col < 8,
    ensures
        bit(row_byte(tile, row, plane), 7 - col) == bit(tile[8 * row + col], plane),
{
    lemma_bit_of_byte_from_bits(|k: int| bit(tile[8 * row + 7 - k], plane), 7 - col);
}

/// Whether index `x` fits `depth` planes: it has no bit set from position
/// `depth` on. With eight planes or more every index fits.
pub open spec fn fits_depth(x: u8, depth: int) -> bool {
    forall|i: int| depth <= i < 8 ==> !bit(x, i)
}

/// With an even number of planes, the byte at the offset of (`plane`, `row`)
/// in a packed tile is the one that packing wrote for that plane and row.
proof fn lemma_offset_of_pair(depth: int, plane: int, row: int)
    requires
        depth % 2 == 0,
        0 <= plane < depth,
        0 <= row < 8,
    ensures
        ({
            let n = plane_offset(depth, plane, row);
            &&& 0 <= n < 16 * (depth / 2)
            &&& (n % 16) / 2 == row
            &&& 2 * (n / 16) + n % 2 == plane
        }),
{
    let n = plane_offset(depth, plane, row);
    let pair = plane / 2;
    let high = plane % 2;
    let within = 2 * row + high;
    assert(n == pair * 16 + within);
    assert(pair < depth / 2);
    lemma_fundamental_div_mod_converse(n, 16, pair, within);
    lemma_fundamental_div_mod_converse(within, 2, row, high);
    assert(n == (8 * pair + row) * 2 + high);
    lemma_fundamental_div_mod_converse(n, 2, 8 * pair + row, high);
}

/// Every byte that unpacking reads lies within the first `8 * depth`.
pub proof fn lemma_offset_in_block(depth: int, plane: int, row: int)
    requires
        0 <= plane < depth,
        0 <= row < 8,
    ensures
        0 <= plane_offset(depth, plane, row) < 8 * depth,
{
}

/// Unpacking a tile reads the first `8 * depth` bytes only.
pub proof fn lemma_unpack_reads_block(a: Seq<u8>, b: Seq<u8>, depth: int)
    requires
        depth >= 0,
        forall|n: int| 0 <= n < 8 * depth ==> a[n] == b[n],
    ensures
        unpack_tile(a, depth) == unpack_tile(b, depth),
{
    let ua = unpack_tile(a, depth);
    let ub = unpack_tile(b, depth);
    assert forall|p: int| 0 <= p < 64 implies ua[p] == ub[p] by {
        let row = p / 8;
        let col = p % 8;
        let fa = |i: int| i < depth && bit(a[plane_offset(depth, i, row)], 7 - col);
        let fb = |i: int| i < depth && bit(b[plane_offset(depth, i, row)], 7 - col);
        assert forall|i: int| 0 <= i < 8 implies bit(ua[p], i) == bit(ub[p], i) by {
            lemma_bit_of_byte_from_bits(fa, i);
            lemma_bit_of_byte_from_bits(fb, i);
            if i < depth {
                lemma_offset_in_block(depth, i, row);
            }
        }
        lemma_bytes_equal_by_bits(ua[p], ub[p]);
    }
    assert(ua =~= ub);
}

/// Packing a tile reads the first 64 indices only.
pub proof fn lemma_pack_reads_tile(a: Seq<u8>, b: Seq<u8>, depth: int)
    requires
        forall|n: int| 0 <= n < 64 ==> a[n] == b[n],
    ensures
        pack_tile(a, depth) == pack_tile(b, depth),
{
    let pa = pack_tile(a, depth);
    let pb = pack_tile(b, depth);
    assert forall|n: int| 0 <= n < pa.len() implies pa[n] == pb[n] by {
        let row = (n % 16) / 2;
        let plane = 2 * (n / 16) + n % 2;
        let fa = |k: int| bit(a[8 * row + 7 - k], plane);
        let fb = |k: int| bit(b[8 * row + 7 - k], plane);
        assert forall|k: int| 0 <= k < 8 implies bit(pa[n], k) == bit(pb[n], k) by {
            lemma_bit_of_byte_from_bits(fa, k);
            lemma_bit_of_byte_from_bits(fb, k);
        }
        lemma_bytes_equal_by_bits(pa[n], pb[n]);
    }
    assert(pa =~= pb);
}

/// Packing a tile with an even number of planes and unpacking it again keeps
/// the low `depth` bits of every index and clears the others.
pub proof fn lemma_pack_unpack_bits(tile: Seq<u8>, depth: int, p: int, i: int)
    requires
        depth >= 0,
        depth % 2 == 0,
        0 <= p < 64,
        0 <= i < 8,
    ensures
        bit(unpack_tile(pack_tile(tile, depth), depth)[p], i) == (i < depth && bit(tile[p], i)),
{
    let packed = pack_tile(tile, depth);
    let row = p / 8;
    let col = p % 8;
    lemma_unpack_pixel_bit(packed, depth, row, col, i);
    if i < depth {
        let n = plane_offset(depth, i, row);
        lemma_offset_of_pair(depth, i, row);
        assert(packed[n] == row_byte(tile, row, i));
        lemma_row_byte_bit(tile, row, i, col);
    }
}

/// Unpacking undoes packing, for every even number of planes and every tile
/// whose indices fit that many planes.
pub proof fn lemma_pack_unpack_round_trip(tile: Seq<u8>, depth: int)
    requires
        tile.len() == 64,
        depth >= 0,
        depth % 2 == 0,
        forall|p: int| 0 <= p < 64 ==> fits_depth(#[trigger] tile[p], depth),
    ensures
        unpack_tile(pack_tile(tile, depth), depth) == tile,
{
    let back = unpack_tile(pack_tile(tile, depth), depth);
    assert forall|p: int| 0 <= p < 64 implies back[p] == tile[p] by {
        assert(fits_depth(tile[p], depth));
        assert forall|i: int| 0 <= i < 8 implies bit(back[p], i) == bit(tile[p], i) by {
            lemma_pack_unpack_bits(tile, depth, p, i);
        }
        lemma_bytes_equal_by_bits(back[p], tile[p]);
    }
    assert(back =~= tile);
}

/// Unpacking undoes packing at the depths in use: 2, 4 and 8 planes, for
/// tiles whose indices are below 4, 16 and 256.
pub proof fn lemma_round_trip_at_depths_in_use(tile: Seq<u8>, depth: int)
    requires
        tile.len() == 64,
        depth == 2 || depth == 4 || depth == 8,
        depth == 2 ==> forall|p: int| 0 <= p < 64 ==> tile[p] < 4,
        depth == 4 ==> forall|p: int| 0 <= p < 64 ==> tile[p] < 16,
    ensures
        unpack_tile(pack_tile(tile, depth), depth) == tile,
{
    assert forall|p: int| 0 <= p < 64 implies fits_depth(#[trigger] tile[p], depth) by {
        assert forall|i: int| depth <= i < 8 implies !bit(tile[p], i) by {
            lemma_small_byte_bits(tile[p], depth as u8, i);
        }
    }
    lemma_pack_unpack_round_trip(tile, depth);
}

/// A whole sheet survives packing and unpacking in the console's format, up
/// to its last full tile, for every even number of planes from 2 on and
/// indices that fit them.
pub proof fn lemma_sheet_round_trip<const DEPTH: usize>(indices: Seq<u8>)
    requires
        DEPTH >= 2,
        DEPTH % 2 == 0,
        forall|p: int| 0 <= p < indices.len() ==> fits_depth(#[trigger] indices[p], DEPTH as int),
    ensures
        unpack_all::<Snes<DEPTH>>(pack_all::<Snes<DEPTH>>(indices)) == indices.take(
            64 * (indices.len() / 64) as int,
        ),
    decreases indices.len(),
{
    let packed = pack_all::<Snes<DEPTH>>(indices);
    if indices.len() < 64 {
        assert(unpack_all::<Snes<DEPTH>>(packed) =~= indices.take(0));
    } else {
        let rest = indices.skip(64);
        let head = indices.take(64);
        lemma_sheet_round_trip::<DEPTH>(rest);
        let block = pack_tile(indices, DEPTH as int);
        assert(block == pack_tile(head, DEPTH as int)) by {
            lemma_pack_reads_tile(indices, head, DEPTH as int);
        }
        assert(packed == block + pack_all::<Snes<DEPTH>>(rest));
        assert(block.len() == 8 * DEPTH);
        assert(packed.skip(8 * DEPTH as int) =~= pack_all::<Snes<DEPTH>>(rest));
        assert(unpack_tile(packed, DEPTH as int) == unpack_tile(block, DEPTH as int)) by {
            lemma_unpack_reads_block(packed, block, DEPTH as int);
        }
        assert forall|p: int| 0 <= p < 64 implies fits_depth(#[trigger] head[p], DEPTH as int) by {
            assert(head[p] == indices[p]);
        }
        lemma_pack_unpack_round_trip(head, DEPTH as int);
        assert forall|p: int| 0 <= p < rest.len() implies fits_depth(
            #[trigger] rest[p],
            DEPTH as int,
        ) by {
            assert(rest[p] == indices[p + 64]);
        }
        assert(64 * (indices.len() / 64) == 64 + 64 * (rest.len() / 64));
        assert(unpack_all::<Snes<DEPTH>>(packed) =~= indices.take(
            64 * (indices.len() / 64) as int,
        ));
    }
}

/// The sheet that `bytes` hold in the console's format with `depth` planes,
/// `depth` being 1 or more: tile `k` is unpacked from the `k`-th block of
/// `8 * depth` bytes.
pub open spec fn snes_sheet(bytes: Seq<u8>, depth: int) -> Seq<u8> {
    Seq::new(
        64 * (bytes.len() / (8 * depth) as nat),
        |p: int| unpack_tile(bytes.skip(8 * depth * (p / 64)), depth)[p % 64],
    )
}

/// The bytes that the sheet `indices` packs to in the console's format with
/// `depth` planes, `depth` being 2 or more: the `k`-th block holds the packed
/// form of tile `k`.
pub open spec fn snes_packed(indices: Seq<u8>, depth: int) -> Seq<u8> {
    let block = 16 * (depth / 2);
    Seq::new(
        (block * (indices.len() / 64)) as nat,
        |n: int| pack_tile(indices.skip(64 * (n / block)), depth)[n % block],
    )
}

/// Unpacking a sheet in the console's format gives `snes_sheet`.
pub proof fn lemma_snes_unpack_all<const DEPTH: usize>(bytes: Seq<u8>)
    requires
        DEPTH >= 1,
    ensures
        unpack_all::<Snes<DEPTH>>(bytes) == snes_sheet(bytes, DEPTH as int),
    decreases bytes.len(),
{
    let block = 8 * DEPTH as int;
    let whole = unpack_all::<Snes<DEPTH>>(bytes);
    let sheet = snes_sheet(bytes, DEPTH as int);
    if bytes.len() < block {
        lemma_basic_div(bytes.len() as int, block);
        assert(whole =~= sheet);
    } else {
        let rest = bytes.skip(block);
        lemma_snes_unpack_all::<DEPTH>(rest);
        let count = bytes.len() as int / block;
        let spare = bytes.len() as int % block;
        lemma_fundamental_div_mod(bytes.len() as int, block);
        lemma_mod_bound(bytes.len() as int, block);
        assert(rest.len() == block * (count - 1) + spare) by (nonlinear_arith)
            requires
                rest.len() == bytes.len() - block,
                bytes.len() as int == block * count + spare,
        ;
        assert(rest.len() as int / block == count - 1) by {
            lemma_fundamental_div_mod_converse(rest.len() as int, block, count - 1, spare);
        }
        let first = unpack_tile(bytes, DEPTH as int);
        let others = snes_sheet(rest, DEPTH as int);
        assert(whole == first + others);
        assert(sheet.len() == 64 * count);
        assert(others.len() == 64 * (count - 1));
        assert forall|p: int| 0 <= p < sheet.len() implies whole[p] == sheet[p] by {
            if p < 64 {
                assert(p / 64 == 0 && p % 64 == p);
                assert(block * 0 == 0);
                assert(bytes.skip(0) =~= bytes);
                assert(whole[p] == first[p]);
            } else {
                let k = p / 64;
                assert(whole[p] == others[p - 64]);
                assert((p - 64) / 64 == k - 1 && (p - 64) % 64 == p % 64);
                assert(block * (k - 1) + block == block * k) by (nonlinear_arith);
                assert(0 <= block * (k - 1)) by (nonlinear_arith)
                    requires
                        block >= 0,
                        k >= 1,
                ;
                assert(k <= count - 1 + 1);
                assert(block * (k - 1) <= rest.len()) by (nonlinear_arith)
                    requires
                        1 <= k <= count,
                        block >= 0,
                        spare >= 0,
                        rest.len() == block * (count - 1) + spare,
                ;
                assert(rest.skip(block * (k - 1)) =~= bytes.skip(block * k));
            }
        }
        assert(whole =~= sheet);
    }
}

/// Packing a sheet in the console's format gives `snes_packed`.
pub proof fn lemma_snes_pack_all<const DEPTH: usize>(indices: Seq<u8>)
    requires
        DEPTH >= 2,
    ensures
        pack_all::<Snes<DEPTH>>(indices) == snes_packed(indices, DEPTH as int),
    decreases indices.len(),
{
    let block = 16 * (DEPTH as int / 2);
    let whole = pack_all::<Snes<DEPTH>>(indices);
    let packed = snes_packed(indices, DEPTH as int);
    if indices.len() < 64 {
        assert(indices.len() / 64 == 0);
        assert(block * 0 == 0);
        assert(packed.len() == 0);
        assert(whole =~= packed);
    } else {
        let rest = indices.skip(64);
        lemma_snes_pack_all::<DEPTH>(rest);
        let count = indices.len() as int / 64;
        assert(rest.len() as int / 64 == count - 1);
        assert(block * count == block + block * (count - 1)) by (nonlinear_arith);
        assert(whole == pack_tile(indices, DEPTH as int) + snes_packed(rest, DEPTH as int));
        assert(whole.len() == packed.len());
        assert forall|n: int| 0 <= n < packed.len() implies whole[n] == packed[n] by {
            if n < block {
                lemma_basic_div(n, block);
                lemma_small_mod(n as nat, block as nat);
                assert(indices.skip(0) =~= indices);
            } else {
                let k = n / block;
                lemma_fundamental_div_mod(n, block);
                lemma_mod_bound(n, block);
                assert(k >= 1 && k < count) by (nonlinear_arith)
                    requires
                        n == block * k + n % block,
                        0 <= n % block < block,
                        block <= n < block * count,
                ;
                assert(n - block == block * (k - 1) + n % block) by (nonlinear_arith)
                    requires
                        n == block * k + n % block,
                ;
                lemma_fundamental_div_mod_converse(n - block, block, k - 1, n % block);
                assert(rest.skip(64 * (k - 1)) =~= indices.skip(64 * k));
            }
        }
        assert(whole =~= packed);
    }
}

/// A buffer shorter than one packed tile holds an empty sheet.
pub proof fn lemma_short_sheet_is_empty<const DEPTH: usize>(bytes: Seq<u8>)
    requires
        bytes.len() < 8 * DEPTH,
    ensures
        unpack_all::<Snes<DEPTH>>(bytes) == Seq::<u8>::empty(),
{
}

/// With an odd number of planes the packed tile is too short to unpack: the
/// last plane is missing from it.
pub proof fn lemma_odd_depth_packs_short(tile: Seq<u8>, depth: int)
    requires
        depth >= 0,
        depth % 2 == 1,
    ensures
        pack_tile(tile, depth).len() == 8 * depth - 8,
{
}

} // verus!
