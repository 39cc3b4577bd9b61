//! Quantization of escape counts into RGB triples.
//!
//! A count that reached the iteration ceiling is drawn black: the point is
//! assumed to lie inside the set. Any other count is first folded into a
//! colour index `1 + ((iterations - 1) % (3 * COLOUR_DEPTH))`, so the palette
//! repeats with period `3 * COLOUR_DEPTH`. The index is then split into its
//! three base-`COLOUR_DEPTH` digits by integer division and remainder — the
//! red digit is `(index / COLOUR_DEPTH^2) % COLOUR_DEPTH`, the green digit
//! `(index / COLOUR_DEPTH) % COLOUR_DEPTH`, the blue digit
//! `index % COLOUR_DEPTH` — and each digit is scaled by `COLOUR_BRIGHTNESS`
//! to give the channel byte.

use vstd::prelude::*;

use crate::raster::buffer_sized;
use crate::raster::in_raster;
use crate::raster::pixel_index;
use crate::raster::pixel_rgb;
use crate::raster::set_pixel;

verus! {

/// Bits of colour depth per channel.
pub const COLOUR_SCALE: u32 = 4;

/// Largest channel digit, `0xff >> (8 - COLOUR_SCALE)`.
pub const COLOUR_DEPTH: u32 = 15;

/// Brightness step per digit, `0xff >> COLOUR_SCALE`.
pub const COLOUR_BRIGHTNESS: u32 = 15;

/// Period of the palette, `3 * COLOUR_DEPTH`.
pub const COLOUR_CYCLE: u32 = 45;

/// Colour index of a count that did not reach the ceiling: a value in
/// `[1, COLOUR_CYCLE]` that depends only on `(iterations - 1) % COLOUR_CYCLE`.
pub open spec fn colour_index(iterations: u32) -> int {
    1 + (iterations - 1) % (COLOUR_CYCLE as int)
}

/// The RGB triple of an escape count: black at the ceiling, otherwise the
/// base-`COLOUR_DEPTH` digits of the colour index, each scaled by
/// `COLOUR_BRIGHTNESS`.
pub open spec fn colour_spec(iterations: u32, max_iterations: u32) -> (u8, u8, u8) {
    if iterations == max_iterations {
        (0u8, 0u8, 0u8)
    } else {
        (
            ((COLOUR_BRIGHTNESS as int) * ((colour_index(iterations) / ((COLOUR_DEPTH as int)
                * (COLOUR_DEPTH as int))) % (COLOUR_DEPTH as int))) as u8,
            ((COLOUR_BRIGHTNESS as int) * ((colour_index(iterations) / (COLOUR_DEPTH as int))
                % (COLOUR_DEPTH as int))) as u8,
            ((COLOUR_BRIGHTNESS as int) * (colour_index(iterations) % (COLOUR_DEPTH as int))) as u8,
        )
    }
}

/// Maps an escape count to its quantized RGB triple.
pub fn colour(iterations: u32, max_iterations: u32) -> (rgb: (u8, u8, u8))
    requires
        1 <= iterations,
    ensures
        rgb == colour_spec(iterations, max_iterations),
{
    if iterations == max_iterations {
        (0, 0, 0)
    } else {
        let index = 1 + (iterations - 1) % COLOUR_CYCLE;
        let r = COLOUR_BRIGHTNESS * ((index / (COLOUR_DEPTH * COLOUR_DEPTH)) % COLOUR_DEPTH);
        let g = COLOUR_BRIGHTNESS * ((index / COLOUR_DEPTH) % COLOUR_DEPTH);
        let b = COLOUR_BRIGHTNESS * (index % COLOUR_DEPTH);
        (r as u8, g as u8, b as u8)
    }
}

/// The palette cycles: two counts short of the ceiling whose predecessors
/// agree modulo `COLOUR_CYCLE` are drawn with the same colour. In particular
/// the colour of `iterations` and of `iterations + COLOUR_CYCLE` coincide.
pub proof fn lemma_colour_cycles(i: u32, j: u32, max_iterations: u32)
    requires
        1 <= i,
        1 <= j,
        i != max_iterations,
        j != max_iterations,
        (i - 1) % (COLOUR_CYCLE as int) == (j - 1) % (COLOUR_CYCLE as int),
    ensures
        colour_spec(i, max_iterations) == colour_spec(j, max_iterations),
{
}

/// The ceiling itself is drawn black.
pub proof fn lemma_colour_ceiling_black(max_iterations: u32)
    ensures
        colour_spec(max_iterations, max_iterations) == (0u8, 0u8, 0u8),
{
}

/// Writes the colour of `iterations` into pixel `px` of a single raster row
/// (3 bytes per pixel); every other byte of the row is unchanged.
pub fn colour_row(set_colour: &mut Vec<u8>, px: usize, iterations: u32, max_iterations: u32)
    requires
        1 <= iterations,
        3 * px + 3 <= old(set_colour).len(),
    ensures
        final(set_colour)@.len() == old(set_colour)@.len(),
        final(set_colour)@[3 * px as int] == colour_spec(iterations, max_iterations).0,
        final(set_colour)@[3 * px as int + 1] == colour_spec(iterations, max_iterations).1,
        final(set_colour)@[3 * px as int + 2] == colour_spec(iterations, max_iterations).2,
        forall|i: int|
            0 <= i < old(set_colour)@.len() && !(3 * px as int <= i < 3 * px as int + 3)
                ==> final(set_colour)@[i] == old(set_colour)@[i],
{
    let p = 3 * px;
    let (r, g, b) = colour(iterations, max_iterations);
    set_colour[p] = r;
    set_colour[p + 1] = g;
    set_colour[p + 2] = b;
}

/// Writes the colour of `iterations` at pixel `(px, py)` of a full raster;
/// every other pixel is unchanged.
pub fn colour_set(
    set_colour: &mut Vec<u8>,
    width: usize,
    height: usize,
    px: usize,
    py: usize,
    iterations: u32,
    max_iterations: u32,
)
    requires
        1 <= iterations,
        buffer_sized(old(set_colour)@, width as int, height as int),
        in_raster(width as int, height as int, px as int, py as int),
    ensures
        final(set_colour)@.len() == old(set_colour)@.len(),
        pixel_rgb(final(set_colour)@, width as int, px as int, py as int) == colour_spec(
            iterations,
            max_iterations,
        ),
        forall|qx: int, qy: int|
            #![trigger pixel_rgb(final(set_colour)@, width as int, qx, qy)]
            in_raster(width as int, height as int, qx, qy) && (qx, qy) != (px as int, py as int)
                ==> pixel_rgb(final(set_colour)@, width as int, qx, qy) == pixel_rgb(
                    old(set_colour)@,
                    width as int,
                    qx,
                    qy,
                ),
{
    let rgb = colour(iterations, max_iterations);
    set_pixel(set_colour, width, height, px, py, rgb);
}

/// Writes the colour of `iterations` at pixel `(px, py)` and at its conjugate
/// mirror pixel `(px, height - 1 - py)`; every other pixel is unchanged.
pub fn colour_half(
    set_colour: &mut Vec<u8>,
    width: usize,
    height: usize,
    px: usize,
    py: usize,
    iterations: u32,
    max_iterations: u32,
)
    requires
        1 <= iterations,
        buffer_sized(old(set_colour)@, width as int, height as int),
        in_raster(width as int, height as int, px as int, py as int),
    ensures
        final(set_colour)@.len() == old(set_colour)@.len(),
        pixel_rgb(final(set_colour)@, width as int, px as int, py as int) == colour_spec(
            iterations,
            max_iterations,
        ),
        pixel_rgb(final(set_colour)@, width as int, px as int, height - 1 - py as int)
            == colour_spec(iterations, max_iterations),
        forall|qx: int, qy: int|
            #![trigger pixel_rgb(final(set_colour)@, width as int, qx, qy)]
            in_raster(width as int, height as int, qx, qy) && (qx, qy) != (px as int, py as int)
                && (qx, qy) != (px as int, height - 1 - py as int)
                ==> pixel_rgb(final(set_colour)@, width as int, qx, qy) == pixel_rgb(
                    old(set_colour)@,
                    width as int,
                    qx,
                    qy,
                ),
{
    let rgb = colour(iterations, max_iterations);
    set_pixel(set_colour, width, height, px, py, rgb);
    set_pixel(set_colour, width, height, px, height - 1 - py, rgb);
}

} // verus!
