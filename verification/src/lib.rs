//! Conversion between a console's planar tile graphics and flat arrays of
//! palette indices, and between its packed 15-bit colours and 24-bit RGB.
//!
//! - [`color`]: colours, the packed colour word, palettes and their format.
//! - [`gfx`]: tiles of palette indices, their planar packed form, sheets of
//!   tiles and the picture of a sheet.
//! - [`import`]: turning pictures into sheets, by palette matching in one of
//!   two tile orders or by grey level.
//! - [`grid`]: the pixel grids that pictures are read from and drawn to.
//! - [`buffer`]: image buffers of the `image` crate and their conversion to
//!   and from grids.
//! - [`bits`]: bytes as sequences of bits, for the contracts of the codec.
//!
//! Every function states what it returns over the mathematical model of its
//! arguments; the proof functions state what holds between the functions.
pub mod bits;
pub mod buffer;
pub mod color;
pub mod gfx;
pub mod grid;
pub mod import;
