//! Image buffers of the `image` crate, as the importers take them and the
//! exporters hand them out.
//!
//! Verus cannot look into such a buffer. What the functions of this module
//! say about one is taken from the `image` crate on trust: the size of the
//! buffer and its pixels, row by row from the top left.
use crate::color::Color;
use crate::grid::{Grid, GridView};
use vstd::prelude::*;

verus! {

/// An image with red, green, blue and alpha samples of 8 bits:
/// `image::RgbaImage`.
#[verifier::external_body]
pub struct RgbaBuffer(pub image::RgbaImage);

/// An image with one grey sample of 8 bits per pixel: `image::GrayImage`.
#[verifier::external_body]
pub struct GrayBuffer(pub image::GrayImage);

/// The width of an RGBA image in pixels.
pub uninterp spec fn rgba_width(img: RgbaBuffer) -> nat;

/// The height of an RGBA image in pixels.
pub uninterp spec fn rgba_height(img: RgbaBuffer) -> nat;

/// The pixels of an RGBA image, row by row from the top left.
pub uninterp spec fn rgba_pixels(img: RgbaBuffer) -> Seq<Color>;

/// The width of a grey image in pixels.
pub uninterp spec fn gray_width(img: GrayBuffer) -> nat;

/// The height of a grey image in pixels.
pub uninterp spec fn gray_height(img: GrayBuffer) -> nat;

/// The grey levels of a grey image, row by row from the top left.
pub uninterp spec fn gray_pixels(img: GrayBuffer) -> Seq<u8>;

/// An RGBA image as a grid.
pub open spec fn rgba_grid(img: RgbaBuffer) -> GridView<Color> {
    GridView { width: rgba_width(img), height: rgba_height(img), cells: rgba_pixels(img) }
}

/// A grey image as a grid.
pub open spec fn gray_grid(img: GrayBuffer) -> GridView<u8> {
    GridView { width: gray_width(img), height: gray_height(img), cells: gray_pixels(img) }
}

/// The first `count` colours that a run of samples holds: four samples make
/// one colour, in the order red, green, blue, alpha.
pub open spec fn sample_colors(samples: Seq<u8>, count: nat) -> Seq<Color> {
    Seq::new(
        count,
        |k: int|
            Color {
                r: samples[4 * k],
                g: samples[4 * k + 1],
                b: samples[4 * k + 2],
                a: samples[4 * k + 3],
            },
    )
}

/// `ImageBuffer::dimensions` on an RGBA image: the width and the height that
/// the image was made with.
#[verifier::external_body]
fn rgba_image_dimensions(img: &RgbaBuffer) -> (size: (u32, u32))
    ensures
        size.0 == rgba_width(*img),
        size.1 == rgba_height(*img),
{
    img.0.dimensions()
}

/// `ImageBuffer::pixels` on an RGBA image: it walks the pixels row by row
/// from the top left, one for each position of the image. Each pixel is
/// handed out as a `Color` with the same four samples.
#[verifier::external_body]
fn rgba_image_pixels(img: &RgbaBuffer) -> (pixels: Vec<Color>)
    ensures
        pixels@ == rgba_pixels(*img),
        pixels@.len() == rgba_width(*img) * rgba_height(*img),
{
    img.0.pixels().map(|p| Color { r: p.0[0], g: p.0[1], b: p.0[2], a: p.0[3] }).collect()
}

/// `ImageBuffer::from_raw` for an RGBA image: it takes the samples as they
/// are where they suffice for `width * height` pixels of four samples, and
/// returns `None` where they do not. It counts the samples of one row first,
/// and returns `None` also where that count does not fit a `usize`.
#[verifier::external_body]
fn rgba_image_from_raw(width: u32, height: u32, samples: Vec<u8>) -> (img: Option<RgbaBuffer>)
    ensures
        img is Some <==> (4 * width <= usize::MAX && 4 * width * height <= samples@.len()),
        img matches Some(b) ==> rgba_width(b) == width && rgba_height(b) == height && rgba_pixels(
            b,
        ) == sample_colors(samples@, (width * height) as nat),
{
    image::RgbaImage::from_raw(width, height, samples).map(RgbaBuffer)
}

/// `ImageBuffer::dimensions` on a grey image: the width and the height that
/// the image was made with.
#[verifier::external_body]
fn gray_image_dimensions(img: &GrayBuffer) -> (size: (u32, u32))
    ensures
        size.0 == gray_width(*img),
        size.1 == gray_height(*img),
{
    img.0.dimensions()
}

/// `ImageBuffer::pixels` on a grey image: it walks the pixels row by row from
/// the top left, one for each position of the image. Each pixel is handed out
/// as its one sample.
#[verifier::external_body]
fn gray_image_pixels(img: &GrayBuffer) -> (pixels: Vec<u8>)
    ensures
        pixels@ == gray_pixels(*img),
        pixels@.len() == gray_width(*img) * gray_height(*img),
{
    img.0.pixels().map(|p| p.0[0]).collect()
}

/// `ImageBuffer::from_raw` for a grey image: it takes the samples as they are
/// where they suffice for `width * height` pixels, and returns `None` where
/// they do not.
#[verifier::external_body]
fn gray_image_from_raw(width: u32, height: u32, samples: Vec<u8>) -> (img: Option<GrayBuffer>)
    ensures
        img is Some <==> width * height <= samples@.len(),
        img matches Some(b) ==> gray_width(b) == width && gray_height(b) == height && gray_pixels(
            b,
        ) == samples@.take(width * height),
{
    image::GrayImage::from_raw(width, height, samples).map(GrayBuffer)
}

impl RgbaBuffer {
    /// Copies the image into a grid of colours.
    pub fn to_grid(&self) -> (grid: Grid<Color>)
        ensures
            grid@ == rgba_grid(*self),
    {
        let (width, height) = rgba_image_dimensions(self);
        let pixels: Vec<Color> = rgba_image_pixels(self);
        Grid::new(width, height, pixels).unwrap()
    }

    /// Makes an image from a grid of colours. The four samples of each pixel
    /// of the grid, and of one row of it, must be no more than a `usize`
    /// counts.
    pub fn from_grid(grid: &Grid<Color>) -> (img: Self)
        requires
            4 * grid@.width <= usize::MAX,
            4 * grid@.width * grid@.height <= usize::MAX,
        ensures
            rgba_grid(img) == grid@,
    {
        let width: u32 = grid.width();
        let height: u32 = grid.height();
        let cells: &Vec<Color> = grid.cells();
        let count: usize = cells.len();
        let mut samples: Vec<u8> = Vec::new();
        let mut k: usize = 0;
        while k < count
            invariant
                k <= count,
                count == cells@.len(),
                samples@.len() == 4 * k,
                sample_colors(samples@, k as nat) == cells@.take(k as int),
            decreases count - k,
        {
            let c: Color = cells[k];
            let ghost before = samples@;
            samples.push(c.r);
            samples.push(c.g);
            samples.push(c.b);
            samples.push(c.a);
            proof {
                assert forall|i: int| 0 <= i < k implies sample_colors(samples@, (k + 1) as nat)[i]
                    == cells@[i] by {
                    assert(sample_colors(before, k as nat)[i] == cells@.take(k as int)[i]);
                }
                assert(sample_colors(samples@, (k + 1) as nat) =~= cells@.take(k + 1));
            }
            k += 1;
        }
        assert(cells@.take(count as int) =~= cells@);
        assert(4 * width * height == 4 * (width * height)) by (nonlinear_arith);
        rgba_image_from_raw(width, height, samples).unwrap()
    }
}

impl GrayBuffer {
    /// Copies the image into a grid of grey levels.
    pub fn to_grid(&self) -> (grid: Grid<u8>)
        ensures
            grid@ == gray_grid(*self),
    {
        let (width, height) = gray_image_dimensions(self);
        let pixels: Vec<u8> = gray_image_pixels(self);
        Grid::new(width, height, pixels).unwrap()
    }

    /// Makes an image from a grid of grey levels.
    pub fn from_grid(grid: Grid<u8>) -> (img: Self)
        ensures
            gray_grid(img) == grid@,
    {
        let width: u32 = grid.width();
        let height: u32 = grid.height();
        let cells: Vec<u8> = grid.into_cells();
        assert(cells@.take(width * height) =~= cells@);
        gray_image_from_raw(width, height, cells).unwrap()
    }
}

} // verus!
