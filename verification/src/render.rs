//! Brute-force rasterization and the conjugate-symmetry plane.
//!
//! [`gms`] evaluates the escape field at every pixel: the reference the
//! compressed and scheduled renderers are measured against. [`gms_half`]
//! exploits the conjugate symmetry of the set about the real axis: when the
//! viewport's imaginary range is symmetric about zero, row `py` and row
//! `height - 1 - py` are colour-identical, so only the top half of the rows
//! is evaluated and each is written to both positions. With an odd number of
//! rows the unpaired middle row is its own mirror and is evaluated directly.

use vstd::prelude::*;

use crate::colour::colour_half;
use crate::colour::colour_set;
use crate::colour::colour_spec;
use crate::field::EscapeField;
use crate::raster::buffer_sized;
use crate::raster::get_pixel;
use crate::raster::in_raster;
use crate::raster::lemma_buffer_pixel_ext;
use crate::raster::lemma_pixel_index_in_range;
use crate::raster::pixel_rgb;

verus! {

/// The colour the field and the mapper assign to pixel `(px, py)`.
pub open spec fn field_rgb<F: EscapeField>(f: F, px: int, py: int) -> (u8, u8, u8) {
    colour_spec(f.count_at(px, py), f.max_iterations())
}

/// The pixel holds the colour the field and the mapper assign to `(px, py)`.
pub open spec fn pixel_coloured<F: EscapeField>(
    s: Seq<u8>,
    f: F,
    width: int,
    px: int,
    py: int,
) -> bool {
    pixel_rgb(s, width, px, py) == field_rgb(f, px, py)
}

/// Renders the raster by evaluating the field at every pixel.
pub fn gms<F: EscapeField>(field: &F, width: usize, height: usize) -> (buf: Vec<u8>)
    requires
        field.wf(),
        2 <= width,
        2 <= height,
        3 * width * height <= usize::MAX,
    ensures
        buffer_sized(buf@, width as int, height as int),
        forall|px: int, py: int|
            in_raster(width as int, height as int, px, py) ==> pixel_coloured(
                buf@,
                *field,
                width as int,
                px,
                py,
            ),
{
    let max_iterations = field.max_iter();
    proof {
        assert(3 * width <= 3 * width * height) by (nonlinear_arith)
            requires
                1 <= height as int,
                0 <= width as int,
        ;
    }
    let mut buf: Vec<u8> = vec![0u8; 3 * width * height];
    let mut py: usize = 0;
    while py < height
        invariant
            field.wf(),
            max_iterations == field.max_iterations(),
            1 <= field.max_iterations(),
            py <= height,
            buffer_sized(buf@, width as int, height as int),
            forall|qx: int, qy: int|
                in_raster(width as int, height as int, qx, qy) && qy < py ==> pixel_coloured(
                    buf@,
                    *field,
                    width as int,
                    qx,
                    qy,
                ),
        decreases height - py,
    {
        let mut px: usize = 0;
        while px < width
            invariant
                field.wf(),
                max_iterations == field.max_iterations(),
                1 <= field.max_iterations(),
                py < height,
                px <= width,
                buffer_sized(buf@, width as int, height as int),
                forall|qx: int, qy: int|
                    in_raster(width as int, height as int, qx, qy) && (qy < py || (qy == py && qx
                        < px)) ==> pixel_coloured(buf@, *field, width as int, qx, qy),
            decreases width - px,
        {
            let count = field.at(px, py);
            colour_set(&mut buf, width, height, px, py, count, max_iterations);
            px += 1;
        }
        py += 1;
    }
    buf
}

/// Number of rows in the computed half of the raster: the unpaired middle row
/// is included when the height is odd.
pub open spec fn half_rows(height: int) -> int {
    (height + 1) / 2
}

/// Renders the raster from its top half only. Rows `0 .. half_rows(height)`
/// are evaluated through the field; as each pixel is computed it is also
/// written to its conjugate mirror position, so every row below the midline
/// is a copy of its mirror row and the whole raster is symmetric about the
/// horizontal midline. With an odd height the unpaired middle row is its own
/// mirror and is evaluated directly.
pub fn gms_half<F: EscapeField>(field: &F, width: usize, height: usize) -> (buf: Vec<u8>)
    requires
        field.wf(),
        2 <= width,
        2 <= height,
        3 * width * height <= usize::MAX,
    ensures
        buffer_sized(buf@, width as int, height as int),
        forall|px: int, py: int|
            in_raster(width as int, height as int, px, py) && py < half_rows(height as int)
                ==> pixel_coloured(buf@, *field, width as int, px, py),
        forall|px: int, py: int|
            in_raster(width as int, height as int, px, py) && py >= half_rows(height as int)
                ==> #[trigger] pixel_rgb(buf@, width as int, px, py) == colour_spec(
                    field.count_at(px, height - 1 - py),
                    field.max_iterations(),
                ),
        forall|px: int, py: int|
            in_raster(width as int, height as int, px, py) ==> #[trigger] pixel_rgb(
                buf@,
                width as int,
                px,
                py,
            ) == pixel_rgb(buf@, width as int, px, height - 1 - py),
{
    proof {
        assert(3 * width <= 3 * width * height) by (nonlinear_arith)
            requires
                1 <= height as int,
                0 <= width as int,
        ;
    }
    let max_iterations = field.max_iter();
    let half = height / 2 + height % 2;
    let mut buf: Vec<u8> = vec![0u8; 3 * width * height];
    let mut py: usize = 0;
    while py < half
        invariant
            field.wf(),
            max_iterations == field.max_iterations(),
            1 <= field.max_iterations(),
            half == half_rows(height as int),
            half <= height,
            py <= half,
            buffer_sized(buf@, width as int, height as int),
            forall|qx: int, qy: int|
                in_raster(width as int, height as int, qx, qy) && qy < py ==> pixel_coloured(
                    buf@,
                    *field,
                    width as int,
                    qx,
                    qy,
                ),
            forall|qx: int, qy: int|
                in_raster(width as int, height as int, qx, qy) && qy >= height - py
                    ==> #[trigger] pixel_rgb(buf@, width as int, qx, qy) == colour_spec(
                    field.count_at(qx, height - 1 - qy),
                    field.max_iterations(),
                ),
        decreases half - py,
    {
        let mut px: usize = 0;
        while px < width
            invariant
                field.wf(),
                max_iterations == field.max_iterations(),
                1 <= field.max_iterations(),
                half == half_rows(height as int),
                half <= height,
                py < half,
                px <= width,
                buffer_sized(buf@, width as int, height as int),
                forall|qx: int, qy: int|
                    in_raster(width as int, height as int, qx, qy) && (qy < py || (qy == py && qx
                        < px)) ==> pixel_coloured(buf@, *field, width as int, qx, qy),
                forall|qx: int, qy: int|
                    in_raster(width as int, height as int, qx, qy) && (qy >= height - py || (qy
                        == height - 1 - py && qx < px)) ==> #[trigger] pixel_rgb(
                        buf@,
                        width as int,
                        qx,
                        qy,
                    ) == colour_spec(field.count_at(qx, height - 1 - qy), field.max_iterations()),
            decreases width - px,
        {
            let count = field.at(px, py);
            colour_half(&mut buf, width, height, px, py, count, max_iterations);
            px += 1;
        }
        py += 1;
    }
    proof {
        assert forall|px: int, py: int|
            in_raster(width as int, height as int, px, py) implies #[trigger] pixel_rgb(
            buf@,
            width as int,
            px,
            py,
        ) == pixel_rgb(buf@, width as int, px, height - 1 - py) by {
            let my = height - 1 - py;
            if py < half_rows(height as int) {
                assert(pixel_coloured(buf@, *field, width as int, px, py));
                assert(my >= height - half);
                assert(pixel_rgb(buf@, width as int, px, my) == colour_spec(
                    field.count_at(px, height - 1 - my),
                    field.max_iterations(),
                ));
                assert(height - 1 - my == py);
            } else {
                assert(0 <= my < half);
                assert(in_raster(width as int, height as int, px, my));
                assert(pixel_coloured(buf@, *field, width as int, px, my));
                assert(py >= height - half);
                assert(pixel_rgb(buf@, width as int, px, py) == colour_spec(
                    field.count_at(px, my),
                    field.max_iterations(),
                ));
            }
        }
    }
    buf
}

/// Extends a computed top half to the full raster: every row below the
/// midline becomes a copy of its conjugate mirror row, which lies in the
/// given half. The rows of the half itself are kept unchanged.
pub fn mirror_extend(half: Vec<u8>, width: usize, height: usize) -> (buf: Vec<u8>)
    requires
        1 <= width,
        1 <= height,
        half@.len() == 3 * width * half_rows(height as int),
        3 * width * height <= usize::MAX,
    ensures
        buffer_sized(buf@, width as int, height as int),
        forall|px: int, py: int|
            0 <= px < width && 0 <= py < half_rows(height as int) ==> #[trigger] pixel_rgb(
                buf@,
                width as int,
                px,
                py,
            ) == pixel_rgb(half@, width as int, px, py),
        forall|px: int, py: int|
            in_raster(width as int, height as int, px, py) && py >= half_rows(height as int)
                ==> #[trigger] pixel_rgb(buf@, width as int, px, py) == pixel_rgb(
                half@,
                width as int,
                px,
                height - 1 - py,
            ),
{
    let ghost orig: Seq<u8> = half@;
    let hr = height / 2 + height % 2;
    proof {
        assert(3 * width * half_rows(height as int) == 3 * ((hr as int) * width))
            by (nonlinear_arith)
            requires
                hr == half_rows(height as int),
        ;
        assert(3 * ((height as int) * width) == 3 * width * height) by (nonlinear_arith);
    }
    let mut buf = half;
    let mut py: usize = hr;
    while py < height
        invariant
            hr == half_rows(height as int),
            hr <= py <= height,
            1 <= width,
            1 <= hr <= height,
            3 * (height as int * width as int) <= usize::MAX,
            orig.len() == 3 * ((hr as int) * width),
            buf@.len() == 3 * ((py as int) * width),
            forall|i: int| 0 <= i < orig.len() ==> buf@[i] == orig[i],
            forall|qx: int, qy: int|
                0 <= qx < width && hr <= qy < py ==> #[trigger] pixel_rgb(
                    buf@,
                    width as int,
                    qx,
                    qy,
                ) == pixel_rgb(orig, width as int, qx, height - 1 - qy),
        decreases height - py,
    {
        let mut px: usize = 0;
        while px < width
            invariant
                hr == half_rows(height as int),
                hr <= py < height,
                px <= width,
                1 <= width,
                1 <= hr <= height,
                3 * (height as int * width as int) <= usize::MAX,
                orig.len() == 3 * ((hr as int) * width),
                buf@.len() == 3 * ((py as int) * width + px),
                forall|i: int| 0 <= i < orig.len() ==> buf@[i] == orig[i],
                forall|qx: int, qy: int|
                    0 <= qx < width && hr <= qy < py ==> #[trigger] pixel_rgb(
                        buf@,
                        width as int,
                        qx,
                        qy,
                    ) == pixel_rgb(orig, width as int, qx, height - 1 - qy),
                forall|qx: int|
                    0 <= qx < px ==> #[trigger] pixel_rgb(buf@, width as int, qx, py as int)
                        == pixel_rgb(orig, width as int, qx, height - 1 - py),
            decreases width - px,
        {
            let my = height - 1 - py;
            proof {
                assert(my < hr);
                lemma_pixel_index_in_range(width as int, hr as int, px as int, my as int);
                assert(3 * (my as int * width as int + px as int) + 3 <= 3 * ((hr as int)
                    * width)) by (nonlinear_arith)
                    requires
                        0 <= px < width,
                        0 <= my < hr,
                ;
                assert(buf@.len() + 3 <= 3 * ((py as int + 1) * width)) by (nonlinear_arith)
                    requires
                        buf@.len() == 3 * ((py as int) * width + px),
                        0 <= px,
                        px < width,
                ;
                assert(3 * ((py as int + 1) * width) <= 3 * (height as int * width as int))
                    by (nonlinear_arith)
                    requires
                        py as int + 1 <= height as int,
                        0 <= width,
                ;
                assert(3 * ((hr as int) * width) <= 3 * ((py as int) * width + px))
                    by (nonlinear_arith)
                    requires
                        hr as int <= py as int,
                        0 <= px,
                        0 <= width,
                ;
            }
            let ghost buf0 = buf@;
            let rgb = get_pixel(&buf, width, px, my);
            assert(rgb == pixel_rgb(orig, width as int, px as int, my as int));
            buf.push(rgb.0);
            buf.push(rgb.1);
            buf.push(rgb.2);
            assert(pixel_rgb(buf@, width as int, px as int, py as int) == rgb);
            proof {
                assert forall|qx: int, qy: int| 0 <= qx < width && hr <= qy < py implies #[trigger]
                    pixel_rgb(buf@, width as int, qx, qy) == pixel_rgb(
                    orig,
                    width as int,
                    qx,
                    height - 1 - qy,
                ) by {
                    assert(3 * (qy * width + qx) + 3 <= 3 * ((py as int) * width + px))
                        by (nonlinear_arith)
                        requires
                            hr <= qy < py as int,
                            0 <= qx < width as int,
                            0 <= px,
                    ;
                    assert(pixel_rgb(buf0, width as int, qx, qy) == pixel_rgb(
                        orig,
                        width as int,
                        qx,
                        height - 1 - qy,
                    ));
                }
                assert forall|qx: int| 0 <= qx < px + 1 implies #[trigger] pixel_rgb(
                    buf@,
                    width as int,
                    qx,
                    py as int,
                ) == pixel_rgb(orig, width as int, qx, height - 1 - py) by {
                    if qx < px {
                        assert(3 * ((py as int) * width + qx) + 3 <= buf0.len());
                        assert(pixel_rgb(buf0, width as int, qx, py as int) == pixel_rgb(
                            orig,
                            width as int,
                            qx,
                            height - 1 - py,
                        ));
                    } else {
                        assert(pixel_rgb(buf@, width as int, qx, py as int) == rgb);
                    }
                }
            }
            px += 1;
        }
        proof {
            assert(3 * ((py as int) * width + width) == 3 * ((py as int + 1) * width))
                by (nonlinear_arith);
        }
        py += 1;
    }
    proof {
        assert(3 * ((height as int) * width) == 3 * width * height) by (nonlinear_arith);
        assert forall|px: int, py: int|
            0 <= px < width && 0 <= py < half_rows(height as int) implies #[trigger] pixel_rgb(
            buf@,
            width as int,
            px,
            py,
        ) == pixel_rgb(orig, width as int, px, py) by {
            lemma_pixel_index_in_range(width as int, hr as int, px, py);
            assert(3 * (py * width as int + px) + 3 <= 3 * ((hr as int) * width))
                by (nonlinear_arith)
                requires
                    0 <= px < width as int,
                    0 <= py < hr as int,
            ;
        }
    }
    buf
}

/// Mirroring is exact: over a conjugate-symmetric field — one whose count at
/// `(px, py)` equals its count at `(px, height - 1 - py)` — the half-raster
/// renderer produces byte for byte the raster of the brute-force renderer.
pub proof fn lemma_gms_half_matches_gms<F: EscapeField>(
    f: F,
    half: Seq<u8>,
    full: Seq<u8>,
    width: int,
    height: int,
)
    requires
        1 <= width,
        1 <= height,
        buffer_sized(half, width, height),
        buffer_sized(full, width, height),
        forall|px: int, py: int|
            in_raster(width, height, px, py) && py < half_rows(height) ==> pixel_coloured(
                half,
                f,
                width,
                px,
                py,
            ),
        forall|px: int, py: int|
            in_raster(width, height, px, py) && py >= half_rows(height) ==> #[trigger] pixel_rgb(
                half,
                width,
                px,
                py,
            ) == colour_spec(f.count_at(px, height - 1 - py), f.max_iterations()),
        forall|px: int, py: int|
            in_raster(width, height, px, py) ==> pixel_coloured(full, f, width, px, py),
        forall|px: int, py: int|
            in_raster(width, height, px, py) ==> #[trigger] f.count_at(px, py) == f.count_at(
                px,
                height - 1 - py,
            ),
    ensures
        half == full,
{
    assert forall|px: int, py: int|
        in_raster(width, height, px, py) implies pixel_rgb(half, width, px, py) == pixel_rgb(
        full,
        width,
        px,
        py,
    ) by {
        if py >= half_rows(height) {
            assert(f.count_at(px, py) == f.count_at(px, height - 1 - py));
        }
    }
    lemma_buffer_pixel_ext(half, full, width, height);
}

} // verus!
