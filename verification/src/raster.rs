//! Row-major RGB raster geometry.
//!
//! A pixel buffer is a flat byte vector holding one 3-byte RGB triple per
//! pixel, row by row, top row first. The spec functions here give every other
//! module one shared vocabulary for talking about pixels of such a buffer.

use vstd::prelude::*;

verus! {

/// The buffer holds exactly `3 * width * height` bytes.
pub open spec fn buffer_sized(s: Seq<u8>, width: int, height: int) -> bool {
    s.len() == 3 * width * height
}

/// Pixel `(px, py)` lies within a `width x height` raster.
pub open spec fn in_raster(width: int, height: int, px: int, py: int) -> bool {
    0 <= px < width && 0 <= py < height
}

/// Byte offset of the first channel of pixel `(px, py)`.
pub open spec fn pixel_index(width: int, px: int, py: int) -> int {
    3 * (py * width + px)
}

/// The RGB triple stored at pixel `(px, py)`.
pub open spec fn pixel_rgb(s: Seq<u8>, width: int, px: int, py: int) -> (u8, u8, u8) {
    (
        s[pixel_index(width, px, py)],
        s[pixel_index(width, px, py) + 1],
        s[pixel_index(width, px, py) + 2],
    )
}

/// The three bytes of an in-bounds pixel lie within the buffer.
pub proof fn lemma_pixel_index_in_range(width: int, height: int, px: int, py: int)
    requires
        in_raster(width, height, px, py),
    ensures
        0 <= pixel_index(width, px, py),
        pixel_index(width, px, py) + 3 <= 3 * width * height,
{
    assert(0 <= 3 * (py * width + px) && 3 * (py * width + px) + 3 <= 3 * width * height)
        by (nonlinear_arith)
        requires
            0 <= px < width,
            0 <= py < height,
    ;
}

/// Distinct in-bounds pixels occupy disjoint 3-byte ranges.
pub proof fn lemma_pixel_index_distinct(width: int, px: int, py: int, qx: int, qy: int)
    requires
        0 <= px < width,
        0 <= qx < width,
        0 <= py,
        0 <= qy,
        (px, py) != (qx, qy),
    ensures
        pixel_index(width, px, py) + 3 <= pixel_index(width, qx, qy)
            || pixel_index(width, qx, qy) + 3 <= pixel_index(width, px, py),
{
    assert(py * width + px + 1 <= qy * width + qx || qy * width + qx + 1 <= py * width + px)
        by (nonlinear_arith)
        requires
            0 <= px < width,
            0 <= qx < width,
            0 <= py,
            0 <= qy,
            (px, py) != (qx, qy),
    ;
}

/// Reads the RGB triple of pixel `(px, py)`.
pub fn get_pixel(buf: &Vec<u8>, width: usize, px: usize, py: usize) -> (rgb: (u8, u8, u8))
    requires
        pixel_index(width as int, px as int, py as int) + 3 <= buf@.len(),
    ensures
        rgb == pixel_rgb(buf@, width as int, px as int, py as int),
{
    let n = buf.len();
    assert(3 * (py as int * width as int + px as int) + 3 <= n as int);
    let p = 3 * (py * width + px);
    (buf[p], buf[p + 1], buf[p + 2])
}

/// Two buffers of the same dimensions that agree on every pixel are equal.
pub proof fn lemma_buffer_pixel_ext(a: Seq<u8>, b: Seq<u8>, width: int, height: int)
    requires
        1 <= width,
        0 <= height,
        buffer_sized(a, width, height),
        buffer_sized(b, width, height),
        forall|px: int, py: int|
            in_raster(width, height, px, py) ==> pixel_rgb(a, width, px, py) == pixel_rgb(
                b,
                width,
                px,
                py,
            ),
    ensures
        a == b,
{
    assert forall|i: int| 0 <= i < a.len() implies a[i] == b[i] by {
        let q = i / 3;
        let r = i % 3;
        vstd::arithmetic::div_mod::lemma_fundamental_div_mod(i, 3);
        vstd::arithmetic::div_mod::lemma_mod_bound(i, 3);
        vstd::arithmetic::div_mod::lemma_div_pos_is_pos(i, 3);
        let py = q / width;
        let px = q % width;
        vstd::arithmetic::div_mod::lemma_fundamental_div_mod(q, width);
        vstd::arithmetic::div_mod::lemma_mod_bound(q, width);
        vstd::arithmetic::div_mod::lemma_div_pos_is_pos(q, width);
        assert(q < width * height) by (nonlinear_arith)
            requires
                i < 3 * width * height,
                i == 3 * q + r,
                0 <= r < 3,
        ;
        assert(py < height) by (nonlinear_arith)
            requires
                q < width * height,
                q == width * py + px,
                0 <= px < width,
                0 <= py,
        ;
        assert(in_raster(width, height, px, py));
        assert(pixel_index(width, px, py) + r == i);
        assert(pixel_rgb(a, width, px, py) == pixel_rgb(b, width, px, py));
        if r == 0 {
            assert(a[i] == pixel_rgb(a, width, px, py).0);
        } else if r == 1 {
            assert(a[i] == pixel_rgb(a, width, px, py).1);
        } else {
            assert(a[i] == pixel_rgb(a, width, px, py).2);
        }
    }
    assert(a =~= b);
}

/// Writes one RGB triple at pixel `(px, py)`; every other byte is unchanged.
pub fn set_pixel(
    buf: &mut Vec<u8>,
    width: usize,
    height: usize,
    px: usize,
    py: usize,
    rgb: (u8, u8, u8),
)
    requires
        buffer_sized(old(buf)@, width as int, height as int),
        in_raster(width as int, height as int, px as int, py as int),
    ensures
        final(buf)@.len() == old(buf)@.len(),
        pixel_rgb(final(buf)@, width as int, px as int, py as int) == rgb,
        forall|qx: int, qy: int|
            #![trigger pixel_rgb(final(buf)@, width as int, qx, qy)]
            in_raster(width as int, height as int, qx, qy) && (qx, qy) != (px as int, py as int)
                ==> pixel_rgb(final(buf)@, width as int, qx, qy) == pixel_rgb(
                    old(buf)@,
                    width as int,
                    qx,
                    qy,
                ),
        forall|i: int|
            0 <= i < old(buf)@.len() && !(pixel_index(width as int, px as int, py as int) <= i
                < pixel_index(width as int, px as int, py as int) + 3)
                ==> final(buf)@[i] == old(buf)@[i],
{
    proof {
        lemma_pixel_index_in_range(width as int, height as int, px as int, py as int);
    }
    let n = buf.len();
    assert(3 * (py as int * width as int + px as int) + 3 <= n as int);
    let p = 3 * (py * width + px);
    buf[p] = rgb.0;
    buf[p + 1] = rgb.1;
    buf[p + 2] = rgb.2;
    proof {
        assert forall|qx: int, qy: int|
            in_raster(width as int, height as int, qx, qy) && (qx, qy) != (px as int, py as int)
                implies pixel_rgb(buf@, width as int, qx, qy) == pixel_rgb(
            old(buf)@,
            width as int,
            qx,
            qy,
        ) by {
            lemma_pixel_index_in_range(width as int, height as int, qx, qy);
            lemma_pixel_index_distinct(width as int, px as int, py as int, qx, qy);
        }
    }
}

} // verus!
