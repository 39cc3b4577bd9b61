//! Recursive region compression.
//!
//! Large regions of an escape-time raster render to one uniform colour, and
//! the compressor avoids evaluating the field inside them. A rectangular
//! region is processed by evaluating its top-left corner, then sampling and
//! writing every boundary pixel. If all boundary samples carry the corner's
//! colour the interior is flood-filled with that colour without further
//! evaluations; otherwise the region is either evaluated pixel by pixel (when
//! it is at or below the leaf size) or quartered and recursed into.
//!
//! On top of the per-region algorithm sits a checkerboard pass over a grid of
//! fixed-size tiles: even-parity tiles are compressed first, and an
//! odd-parity tile whose surrounding ring of pixels carries its own corner
//! colour is flood-filled at once.
//!
//! Flood-filling a uniform-boundary region reproduces the per-pixel raster
//! exactly whenever the field is spatially coherent over the raster
//! ([`field_coherent`]): every rectangle with a uniformly coloured boundary
//! is uniformly coloured throughout. The escape-time fields this crate is
//! used with have that property at practical resolutions; the compressor's
//! contract states exactness under that hypothesis, and the crate's tests
//! compare it against the brute-force renderer byte for byte.

use vstd::prelude::*;

use crate::colour::colour;
use crate::field::EscapeField;
use crate::raster::buffer_sized;
use crate::raster::get_pixel;
use crate::raster::in_raster;
use crate::raster::lemma_buffer_pixel_ext;
use crate::raster::lemma_pixel_index_in_range;
use crate::raster::pixel_rgb;
use crate::raster::set_pixel;
use crate::render::field_rgb;
use crate::render::half_rows;
use crate::render::mirror_extend;
use crate::render::pixel_coloured;

verus! {

/// Side length of the fixed tiles of the checkerboard pass.
pub const CLUSTER_SIZE: usize = 32;

/// Regions with a side shorter than this are evaluated pixel by pixel
/// instead of being quartered further.
pub const CLUSTER_LEAF: usize = 4;

/// Pixel `(px, py)` lies in the closed rectangle `[xl, xr] x [yt, yb]`.
pub open spec fn in_rect(xl: int, xr: int, yt: int, yb: int, px: int, py: int) -> bool {
    xl <= px <= xr && yt <= py <= yb
}

/// Pixel `(px, py)` lies on the boundary ring of the rectangle.
pub open spec fn on_rect_boundary(xl: int, xr: int, yt: int, yb: int, px: int, py: int) -> bool {
    in_rect(xl, xr, yt, yb, px, py) && (px == xl || px == xr || py == yt || py == yb)
}

/// Every boundary pixel of the rectangle renders to the colour of the
/// rectangle's top-left corner.
pub open spec fn rect_boundary_uniform<F: EscapeField>(
    f: F,
    xl: int,
    xr: int,
    yt: int,
    yb: int,
) -> bool {
    forall|px: int, py: int|
        #[trigger] on_rect_boundary(xl, xr, yt, yb, px, py) ==> field_rgb(f, px, py) == field_rgb(
            f,
            xl,
            yt,
        )
}

/// Every pixel of the rectangle renders to the colour of its top-left corner.
pub open spec fn rect_uniform<F: EscapeField>(f: F, xl: int, xr: int, yt: int, yb: int) -> bool {
    forall|px: int, py: int|
        #[trigger] in_rect(xl, xr, yt, yb, px, py) ==> field_rgb(f, px, py) == field_rgb(f, xl, yt)
}

/// The field is spatially coherent over a `width x height` raster: every
/// rectangle within the raster whose boundary renders uniformly to its
/// corner's colour renders to that colour throughout.
pub open spec fn field_coherent<F: EscapeField>(f: F, width: int, height: int) -> bool {
    forall|xl: int, xr: int, yt: int, yb: int|
        0 <= xl <= xr < width && 0 <= yt <= yb < height && #[trigger] rect_boundary_uniform(
            f,
            xl,
            xr,
            yt,
            yb,
        ) ==> rect_uniform(f, xl, xr, yt, yb)
}

/// First pixel column (or row) of tile `c`.
pub open spec fn tile_lo(c: int) -> int {
    CLUSTER_SIZE * c
}

/// Last pixel column (or row) of tile `c` on an axis of `limit` pixels:
/// tiles at the far edge are clipped to the raster.
pub open spec fn tile_hi(c: int, limit: int) -> int {
    if CLUSTER_SIZE * c + (CLUSTER_SIZE - 1) <= limit - 1 {
        CLUSTER_SIZE * c + (CLUSTER_SIZE - 1)
    } else {
        limit - 1
    }
}

/// Number of tiles covering an axis of `limit` pixels.
pub open spec fn tile_count(limit: int) -> int {
    (limit + (CLUSTER_SIZE - 1)) / (CLUSTER_SIZE as int)
}

/// Every pixel of tile `(tx, ty)` of the half raster holds its field colour.
pub open spec fn tile_exact<F: EscapeField>(
    s: Seq<u8>,
    f: F,
    width: int,
    half: int,
    tx: int,
    ty: int,
) -> bool {
    forall|qx: int, qy: int|
        #![trigger pixel_rgb(s, width, qx, qy)]
        in_rect(tile_lo(tx), tile_hi(tx, width), tile_lo(ty), tile_hi(ty, half), qx, qy)
            ==> pixel_rgb(s, width, qx, qy) == field_rgb(f, qx, qy)
}

/// The inclusive pixel bounds of tile `c` on an axis of `limit` pixels.
fn tile_bounds(c: usize, limit: usize) -> (b: (usize, usize))
    requires
        CLUSTER_SIZE * c < limit,
        limit + CLUSTER_SIZE <= usize::MAX,
    ensures
        b.0 == tile_lo(c as int),
        b.1 == tile_hi(c as int, limit as int),
        b.0 <= b.1 < limit,
{
    let lo = CLUSTER_SIZE * c;
    let hi_full = lo + (CLUSTER_SIZE - 1);
    let hi = if hi_full <= limit - 1 {
        hi_full
    } else {
        limit - 1
    };
    (lo, hi)
}

/// Every tile index below `tile_count(limit)` starts within the axis, and
/// every axis position lies in exactly the tile given by division.
proof fn lemma_tile_cover(c: int, limit: int)
    requires
        1 <= limit,
        0 <= c < tile_count(limit),
    ensures
        tile_lo(c) < limit,
        tile_lo(c) <= tile_hi(c, limit) < limit,
{
    vstd::arithmetic::div_mod::lemma_fundamental_div_mod(limit + (CLUSTER_SIZE - 1), CLUSTER_SIZE as int);
    vstd::arithmetic::div_mod::lemma_mod_bound(limit + (CLUSTER_SIZE - 1), CLUSTER_SIZE as int);
    assert(CLUSTER_SIZE * tile_count(limit) >= limit);
    assert(CLUSTER_SIZE * c <= CLUSTER_SIZE * (tile_count(limit) - 1)) by (nonlinear_arith)
        requires
            c <= tile_count(limit) - 1,
    ;
}

/// The tile holding an axis position.
proof fn lemma_tile_of(q: int, limit: int)
    requires
        1 <= limit,
        0 <= q < limit,
    ensures
        0 <= q / (CLUSTER_SIZE as int) < tile_count(limit),
        tile_lo(q / (CLUSTER_SIZE as int)) <= q <= tile_hi(q / (CLUSTER_SIZE as int), limit),
{
    let cs = CLUSTER_SIZE as int;
    vstd::arithmetic::div_mod::lemma_fundamental_div_mod(q, cs);
    vstd::arithmetic::div_mod::lemma_mod_bound(q, cs);
    vstd::arithmetic::div_mod::lemma_div_pos_is_pos(q, cs);
    vstd::arithmetic::div_mod::lemma_fundamental_div_mod(limit + (cs - 1), cs);
    vstd::arithmetic::div_mod::lemma_mod_bound(limit + (cs - 1), cs);
    let t = q / cs;
    assert(cs * t <= q < cs * t + cs);
    assert(t < tile_count(limit)) by (nonlinear_arith)
        requires
            cs == CLUSTER_SIZE as int,
            cs * t <= q,
            q < limit,
            cs * tile_count(limit) >= limit,
    ;
}

/// A write confined to tile `(cx, cy)` leaves every other tile's exactness
/// untouched: distinct tiles occupy disjoint pixel rectangles.
proof fn lemma_tile_exact_preserved<F: EscapeField>(
    pre: Seq<u8>,
    post: Seq<u8>,
    f: F,
    width: int,
    half: int,
    tx: int,
    ty: int,
    cx: int,
    cy: int,
)
    requires
        1 <= width,
        1 <= half,
        0 <= tx,
        0 <= ty,
        0 <= cx,
        0 <= cy,
        tile_hi(tx, width) < width,
        tile_hi(ty, half) < half,
        (tx, ty) != (cx, cy),
        tile_exact(pre, f, width, half, tx, ty),
        forall|qx: int, qy: int|
            #![trigger pixel_rgb(post, width, qx, qy)]
            in_raster(width, half, qx, qy) && !in_rect(
                tile_lo(cx),
                tile_hi(cx, width),
                tile_lo(cy),
                tile_hi(cy, half),
                qx,
                qy,
            ) ==> pixel_rgb(post, width, qx, qy) == pixel_rgb(pre, width, qx, qy),
    ensures
        tile_exact(post, f, width, half, tx, ty),
{
    assert forall|qx: int, qy: int|
        in_rect(tile_lo(tx), tile_hi(tx, width), tile_lo(ty), tile_hi(ty, half), qx, qy)
            implies #[trigger] pixel_rgb(post, width, qx, qy) == field_rgb(f, qx, qy) by {
        assert(0 <= tile_lo(tx) && 0 <= tile_lo(ty)) by (nonlinear_arith)
            requires
                0 <= tx,
                0 <= ty,
        ;
        assert(in_raster(width, half, qx, qy));
        if tx < cx {
            assert(CLUSTER_SIZE * tx + CLUSTER_SIZE <= CLUSTER_SIZE * cx) by (nonlinear_arith)
                requires
                    tx + 1 <= cx,
            ;
            assert(qx < tile_lo(cx));
        } else if tx > cx {
            assert(CLUSTER_SIZE * cx + CLUSTER_SIZE <= CLUSTER_SIZE * tx) by (nonlinear_arith)
                requires
                    cx + 1 <= tx,
            ;
            assert(qx > tile_hi(cx, width));
        } else if ty < cy {
            assert(CLUSTER_SIZE * ty + CLUSTER_SIZE <= CLUSTER_SIZE * cy) by (nonlinear_arith)
                requires
                    ty + 1 <= cy,
            ;
            assert(qy < tile_lo(cy));
        } else {
            assert(ty > cy);
            assert(CLUSTER_SIZE * cy + CLUSTER_SIZE <= CLUSTER_SIZE * ty) by (nonlinear_arith)
                requires
                    cy + 1 <= ty,
            ;
            assert(qy > tile_hi(cy, half));
        }
        assert(pixel_rgb(pre, width, qx, qy) == field_rgb(f, qx, qy));
    }
}

/// Reads the pixel run `(x0..=x1, y)` and reports whether every pixel of it
/// holds `rgb`.
fn row_matches(
    buf: &Vec<u8>,
    width: usize,
    height: usize,
    x0: usize,
    x1: usize,
    y: usize,
    rgb: (u8, u8, u8),
) -> (m: bool)
    requires
        buffer_sized(buf@, width as int, height as int),
        x0 <= x1 < width,
        y < height,
    ensures
        m <==> (forall|qx: int|
            x0 <= qx <= x1 ==> #[trigger] pixel_rgb(buf@, width as int, qx, y as int) == rgb),
{
    let mut m = true;
    let mut px = x0;
    while px <= x1
        invariant
            x0 <= px <= x1 + 1,
            x1 < width,
            y < height,
            buffer_sized(buf@, width as int, height as int),
            m <==> (forall|qx: int|
                x0 <= qx < px ==> #[trigger] pixel_rgb(buf@, width as int, qx, y as int) == rgb),
        decreases x1 + 1 - px,
    {
        proof {
            lemma_pixel_index_in_range(width as int, height as int, px as int, y as int);
        }
        let c = get_pixel(buf, width, px, y);
        let here = c.0 == rgb.0 && c.1 == rgb.1 && c.2 == rgb.2;
        proof {
            if !here {
                assert(pixel_rgb(buf@, width as int, px as int, y as int) != rgb);
            }
        }
        m = m && here;
        px += 1;
    }
    m
}

/// Reads the pixel run `(x, y0..=y1)` and reports whether every pixel of it
/// holds `rgb`.
fn col_matches(
    buf: &Vec<u8>,
    width: usize,
    height: usize,
    x: usize,
    y0: usize,
    y1: usize,
    rgb: (u8, u8, u8),
) -> (m: bool)
    requires
        buffer_sized(buf@, width as int, height as int),
        x < width,
        y0 <= y1 < height,
    ensures
        m <==> (forall|qy: int|
            y0 <= qy <= y1 ==> #[trigger] pixel_rgb(buf@, width as int, x as int, qy) == rgb),
{
    let mut m = true;
    let mut py = y0;
    while py <= y1
        invariant
            y0 <= py <= y1 + 1,
            y1 < height,
            x < width,
            buffer_sized(buf@, width as int, height as int),
            m <==> (forall|qy: int|
                y0 <= qy < py ==> #[trigger] pixel_rgb(buf@, width as int, x as int, qy) == rgb),
        decreases y1 + 1 - py,
    {
        proof {
            lemma_pixel_index_in_range(width as int, height as int, x as int, py as int);
        }
        let c = get_pixel(buf, width, x, py);
        let here = c.0 == rgb.0 && c.1 == rgb.1 && c.2 == rgb.2;
        proof {
            if !here {
                assert(pixel_rgb(buf@, width as int, x as int, py as int) != rgb);
            }
        }
        m = m && here;
        py += 1;
    }
    m
}

/// Evaluates and writes the pixel run `(x0..=x1, y)`, and reports whether
/// every one of those pixels rendered to `rgb`.
fn sample_row<F: EscapeField>(
    field: &F,
    buf: &mut Vec<u8>,
    width: usize,
    height: usize,
    x0: usize,
    x1: usize,
    y: usize,
    max_iterations: u32,
    rgb: (u8, u8, u8),
) -> (uniform: bool)
    requires
        field.wf(),
        max_iterations == field.max_iterations(),
        buffer_sized(old(buf)@, width as int, height as int),
        x0 <= x1 < width,
        y < height,
    ensures
        buffer_sized(final(buf)@, width as int, height as int),
        forall|qx: int, qy: int|
            #![trigger pixel_rgb(final(buf)@, width as int, qx, qy)]
            in_raster(width as int, height as int, qx, qy) && !in_rect(
                x0 as int,
                x1 as int,
                y as int,
                y as int,
                qx,
                qy,
            ) ==> pixel_rgb(final(buf)@, width as int, qx, qy) == pixel_rgb(
                old(buf)@,
                width as int,
                qx,
                qy,
            ),
        forall|qx: int|
            #![trigger pixel_rgb(final(buf)@, width as int, qx, y as int)]
            x0 <= qx <= x1 ==> pixel_rgb(final(buf)@, width as int, qx, y as int) == field_rgb(
                *field,
                qx,
                y as int,
            ),
        uniform <==> (forall|qx: int|
            x0 <= qx <= x1 ==> #[trigger] field_rgb(*field, qx, y as int) == rgb),
{
    let mut uniform = true;
    let mut px = x0;
    while px <= x1
        invariant
            field.wf(),
            max_iterations == field.max_iterations(),
            x0 <= px <= x1 + 1,
            x1 < width,
            y < height,
            buffer_sized(buf@, width as int, height as int),
            forall|qx: int, qy: int|
                #![trigger pixel_rgb(buf@, width as int, qx, qy)]
                in_raster(width as int, height as int, qx, qy) && !in_rect(
                    x0 as int,
                    x1 as int,
                    y as int,
                    y as int,
                    qx,
                    qy,
                ) ==> pixel_rgb(buf@, width as int, qx, qy) == pixel_rgb(
                    old(buf)@,
                    width as int,
                    qx,
                    qy,
                ),
            forall|qx: int|
                #![trigger pixel_rgb(buf@, width as int, qx, y as int)]
                x0 <= qx < px ==> pixel_rgb(buf@, width as int, qx, y as int) == field_rgb(
                    *field,
                    qx,
                    y as int,
                ),
            uniform <==> (forall|qx: int|
                x0 <= qx < px ==> #[trigger] field_rgb(*field, qx, y as int) == rgb),
        decreases x1 + 1 - px,
    {
        let count = field.at(px, y);
        let c = colour(count, max_iterations);
        set_pixel(buf, width, height, px, y, c);
        let matches_corner = c.0 == rgb.0 && c.1 == rgb.1 && c.2 == rgb.2;
        proof {
            assert(field_rgb(*field, px as int, y as int) == c);
            if !matches_corner {
                assert(field_rgb(*field, px as int, y as int) != rgb);
            }
        }
        uniform = uniform && matches_corner;
        px += 1;
    }
    uniform
}

/// Evaluates and writes the pixel run `(x, y0..=y1)`, and reports whether
/// every one of those pixels rendered to `rgb`.
fn sample_col<F: EscapeField>(
    field: &F,
    buf: &mut Vec<u8>,
    width: usize,
    height: usize,
    x: usize,
    y0: usize,
    y1: usize,
    max_iterations: u32,
    rgb: (u8, u8, u8),
) -> (uniform: bool)
    requires
        field.wf(),
        max_iterations == field.max_iterations(),
        buffer_sized(old(buf)@, width as int, height as int),
        x < width,
        y0 <= y1 < height,
    ensures
        buffer_sized(final(buf)@, width as int, height as int),
        forall|qx: int, qy: int|
            #![trigger pixel_rgb(final(buf)@, width as int, qx, qy)]
            in_raster(width as int, height as int, qx, qy) && !in_rect(
                x as int,
                x as int,
                y0 as int,
                y1 as int,
                qx,
                qy,
            ) ==> pixel_rgb(final(buf)@, width as int, qx, qy) == pixel_rgb(
                old(buf)@,
                width as int,
                qx,
                qy,
            ),
        forall|qy: int|
            #![trigger pixel_rgb(final(buf)@, width as int, x as int, qy)]
            y0 <= qy <= y1 ==> pixel_rgb(final(buf)@, width as int, x as int, qy) == field_rgb(
                *field,
                x as int,
                qy,
            ),
        uniform <==> (forall|qy: int|
            y0 <= qy <= y1 ==> #[trigger] field_rgb(*field, x as int, qy) == rgb),
{
    let mut uniform = true;
    let mut py = y0;
    while py <= y1
        invariant
            field.wf(),
            max_iterations == field.max_iterations(),
            y0 <= py <= y1 + 1,
            y1 < height,
            x < width,
            buffer_sized(buf@, width as int, height as int),
            forall|qx: int, qy: int|
                #![trigger pixel_rgb(buf@, width as int, qx, qy)]
                in_raster(width as int, height as int, qx, qy) && !in_rect(
                    x as int,
                    x as int,
                    y0 as int,
                    y1 as int,
                    qx,
                    qy,
                ) ==> pixel_rgb(buf@, width as int, qx, qy) == pixel_rgb(
                    old(buf)@,
                    width as int,
                    qx,
                    qy,
                ),
            forall|qy: int|
                #![trigger pixel_rgb(buf@, width as int, x as int, qy)]
                y0 <= qy < py ==> pixel_rgb(buf@, width as int, x as int, qy) == field_rgb(
                    *field,
                    x as int,
                    qy,
                ),
            uniform <==> (forall|qy: int|
                y0 <= qy < py ==> #[trigger] field_rgb(*field, x as int, qy) == rgb),
        decreases y1 + 1 - py,
    {
        let count = field.at(x, py);
        let c = colour(count, max_iterations);
        set_pixel(buf, width, height, x, py, c);
        let matches_corner = c.0 == rgb.0 && c.1 == rgb.1 && c.2 == rgb.2;
        proof {
            assert(field_rgb(*field, x as int, py as int) == c);
            if !matches_corner {
                assert(field_rgb(*field, x as int, py as int) != rgb);
            }
        }
        uniform = uniform && matches_corner;
        py += 1;
    }
    uniform
}

/// Writes `rgb` to every pixel of the rectangle, without evaluating the
/// field.
fn fill_rect(
    buf: &mut Vec<u8>,
    width: usize,
    height: usize,
    x0: usize,
    x1: usize,
    y0: usize,
    y1: usize,
    rgb: (u8, u8, u8),
)
    requires
        buffer_sized(old(buf)@, width as int, height as int),
        x0 <= x1 < width,
        y0 <= y1 < height,
    ensures
        buffer_sized(final(buf)@, width as int, height as int),
        forall|qx: int, qy: int|
            #![trigger pixel_rgb(final(buf)@, width as int, qx, qy)]
            in_raster(width as int, height as int, qx, qy) && !in_rect(
                x0 as int,
                x1 as int,
                y0 as int,
                y1 as int,
                qx,
                qy,
            ) ==> pixel_rgb(final(buf)@, width as int, qx, qy) == pixel_rgb(
                old(buf)@,
                width as int,
                qx,
                qy,
            ),
        forall|qx: int, qy: int|
            #![trigger pixel_rgb(final(buf)@, width as int, qx, qy)]
            in_rect(x0 as int, x1 as int, y0 as int, y1 as int, qx, qy) ==> pixel_rgb(
                final(buf)@,
                width as int,
                qx,
                qy,
            ) == rgb,
{
    let mut py = y0;
    while py <= y1
        invariant
            x0 <= x1 < width,
            y0 <= py <= y1 + 1,
            y1 < height,
            buffer_sized(buf@, width as int, height as int),
            forall|qx: int, qy: int|
                #![trigger pixel_rgb(buf@, width as int, qx, qy)]
                in_raster(width as int, height as int, qx, qy) && !in_rect(
                    x0 as int,
                    x1 as int,
                    y0 as int,
                    y1 as int,
                    qx,
                    qy,
                ) ==> pixel_rgb(buf@, width as int, qx, qy) == pixel_rgb(
                    old(buf)@,
                    width as int,
                    qx,
                    qy,
                ),
            forall|qx: int, qy: int|
                #![trigger pixel_rgb(buf@, width as int, qx, qy)]
                in_rect(x0 as int, x1 as int, y0 as int, py - 1, qx, qy) ==> pixel_rgb(
                    buf@,
                    width as int,
                    qx,
                    qy,
                ) == rgb,
        decreases y1 + 1 - py,
    {
        let mut px = x0;
        while px <= x1
            invariant
                x0 <= px <= x1 + 1,
                x1 < width,
                y0 <= py <= y1,
                y1 < height,
                buffer_sized(buf@, width as int, height as int),
                forall|qx: int, qy: int|
                    #![trigger pixel_rgb(buf@, width as int, qx, qy)]
                    in_raster(width as int, height as int, qx, qy) && !in_rect(
                        x0 as int,
                        x1 as int,
                        y0 as int,
                        y1 as int,
                        qx,
                        qy,
                    ) ==> pixel_rgb(buf@, width as int, qx, qy) == pixel_rgb(
                        old(buf)@,
                        width as int,
                        qx,
                        qy,
                    ),
                forall|qx: int, qy: int|
                    #![trigger pixel_rgb(buf@, width as int, qx, qy)]
                    in_rect(x0 as int, x1 as int, y0 as int, py - 1, qx, qy) ==> pixel_rgb(
                        buf@,
                        width as int,
                        qx,
                        qy,
                    ) == rgb,
                forall|qx: int|
                    #![trigger pixel_rgb(buf@, width as int, qx, py as int)]
                    x0 <= qx < px ==> pixel_rgb(buf@, width as int, qx, py as int) == rgb,
            decreases x1 + 1 - px,
        {
            set_pixel(buf, width, height, px, py, rgb);
            px += 1;
        }
        py += 1;
    }
}

/// Evaluates the field at every pixel of the rectangle and writes each
/// colour.
fn eval_rect<F: EscapeField>(
    field: &F,
    buf: &mut Vec<u8>,
    width: usize,
    height: usize,
    x0: usize,
    x1: usize,
    y0: usize,
    y1: usize,
    max_iterations: u32,
)
    requires
        field.wf(),
        max_iterations == field.max_iterations(),
        buffer_sized(old(buf)@, width as int, height as int),
        x0 <= x1 < width,
        y0 <= y1 < height,
    ensures
        buffer_sized(final(buf)@, width as int, height as int),
        forall|qx: int, qy: int|
            #![trigger pixel_rgb(final(buf)@, width as int, qx, qy)]
            in_raster(width as int, height as int, qx, qy) && !in_rect(
                x0 as int,
                x1 as int,
                y0 as int,
                y1 as int,
                qx,
                qy,
            ) ==> pixel_rgb(final(buf)@, width as int, qx, qy) == pixel_rgb(
                old(buf)@,
                width as int,
                qx,
                qy,
            ),
        forall|qx: int, qy: int|
            #![trigger pixel_rgb(final(buf)@, width as int, qx, qy)]
            in_rect(x0 as int, x1 as int, y0 as int, y1 as int, qx, qy) ==> pixel_rgb(
                final(buf)@,
                width as int,
                qx,
                qy,
            ) == field_rgb(*field, qx, qy),
{
    let mut py = y0;
    while py <= y1
        invariant
            field.wf(),
            max_iterations == field.max_iterations(),
            x0 <= x1 < width,
            y0 <= py <= y1 + 1,
            y1 < height,
            buffer_sized(buf@, width as int, height as int),
            forall|qx: int, qy: int|
                #![trigger pixel_rgb(buf@, width as int, qx, qy)]
                in_raster(width as int, height as int, qx, qy) && !in_rect(
                    x0 as int,
                    x1 as int,
                    y0 as int,
                    y1 as int,
                    qx,
                    qy,
                ) ==> pixel_rgb(buf@, width as int, qx, qy) == pixel_rgb(
                    old(buf)@,
                    width as int,
                    qx,
                    qy,
                ),
            forall|qx: int, qy: int|
                #![trigger pixel_rgb(buf@, width as int, qx, qy)]
                in_rect(x0 as int, x1 as int, y0 as int, py - 1, qx, qy) ==> pixel_rgb(
                    buf@,
                    width as int,
                    qx,
                    qy,
                ) == field_rgb(*field, qx, qy),
        decreases y1 + 1 - py,
    {
        let mut px = x0;
        while px <= x1
            invariant
                field.wf(),
                max_iterations == field.max_iterations(),
                x0 <= px <= x1 + 1,
                x1 < width,
                y0 <= py <= y1,
                y1 < height,
                buffer_sized(buf@, width as int, height as int),
                forall|qx: int, qy: int|
                    #![trigger pixel_rgb(buf@, width as int, qx, qy)]
                    in_raster(width as int, height as int, qx, qy) && !in_rect(
                        x0 as int,
                        x1 as int,
                        y0 as int,
                        y1 as int,
                        qx,
                        qy,
                    ) ==> pixel_rgb(buf@, width as int, qx, qy) == pixel_rgb(
                        old(buf)@,
                        width as int,
                        qx,
                        qy,
                    ),
                forall|qx: int, qy: int|
                    #![trigger pixel_rgb(buf@, width as int, qx, qy)]
                    in_rect(x0 as int, x1 as int, y0 as int, py - 1, qx, qy) ==> pixel_rgb(
                        buf@,
                        width as int,
                        qx,
                        qy,
                    ) == field_rgb(*field, qx, qy),
                forall|qx: int|
                    #![trigger pixel_rgb(buf@, width as int, qx, py as int)]
                    x0 <= qx < px ==> pixel_rgb(buf@, width as int, qx, py as int) == field_rgb(
                        *field,
                        qx,
                        py as int,
                    ),
            decreases x1 + 1 - px,
        {
            let count = field.at(px, py);
            let c = colour(count, max_iterations);
            set_pixel(buf, width, height, px, py, c);
            px += 1;
        }
        py += 1;
    }
}

/// Compresses one rectangular region: samples its boundary, then either
/// flood-fills a uniform interior, evaluates a leaf-sized interior directly,
/// or quarters the interior and recurses. Every boundary pixel is written
/// with its field colour; when the field is coherent over the raster, every
/// pixel of the region is.
fn compute_cluster<F: EscapeField>(
    field: &F,
    buf: &mut Vec<u8>,
    width: usize,
    height: usize,
    xl: usize,
    xr: usize,
    yt: usize,
    yb: usize,
    max_iterations: u32,
)
    requires
        field.wf(),
        max_iterations == field.max_iterations(),
        buffer_sized(old(buf)@, width as int, height as int),
        xl <= xr < width,
        yt <= yb < height,
    ensures
        buffer_sized(final(buf)@, width as int, height as int),
        forall|qx: int, qy: int|
            #![trigger pixel_rgb(final(buf)@, width as int, qx, qy)]
            in_raster(width as int, height as int, qx, qy) && !in_rect(
                xl as int,
                xr as int,
                yt as int,
                yb as int,
                qx,
                qy,
            ) ==> pixel_rgb(final(buf)@, width as int, qx, qy) == pixel_rgb(
                old(buf)@,
                width as int,
                qx,
                qy,
            ),
        field_coherent(*field, width as int, height as int) ==> forall|qx: int, qy: int|
            #![trigger pixel_rgb(final(buf)@, width as int, qx, qy)]
            in_rect(xl as int, xr as int, yt as int, yb as int, qx, qy) ==> pixel_rgb(
                final(buf)@,
                width as int,
                qx,
                qy,
            ) == field_rgb(*field, qx, qy),
    decreases yb - yt,
{
    let corner_count = field.at(xl, yt);
    let corner_rgb = colour(corner_count, max_iterations);
    proof {
        assert(corner_rgb == field_rgb(*field, xl as int, yt as int));
    }

    let mut uniform = sample_row(field, buf, width, height, xl, xr, yt, max_iterations, corner_rgb);
    let ghost b_top = buf@;
    if yb > yt {
        let u = sample_row(field, buf, width, height, xl, xr, yb, max_iterations, corner_rgb);
        uniform = uniform && u;
    }
    let ghost b_bot = buf@;
    if yt + 1 < yb {
        let u = sample_col(
            field,
            buf,
            width,
            height,
            xl,
            yt + 1,
            yb - 1,
            max_iterations,
            corner_rgb,
        );
        uniform = uniform && u;
        if xr > xl {
            let u2 = sample_col(
                field,
                buf,
                width,
                height,
                xr,
                yt + 1,
                yb - 1,
                max_iterations,
                corner_rgb,
            );
            uniform = uniform && u2;
        }
    }

    // All boundary pixels now hold their field colour, and `uniform` says
    // whether every one of them holds the corner's colour.
    proof {
        assert forall|qx: int, qy: int|
            on_rect_boundary(xl as int, xr as int, yt as int, yb as int, qx, qy) implies #[trigger]
            pixel_rgb(buf@, width as int, qx, qy) == field_rgb(*field, qx, qy) by {
            if qy == yt {
                assert(pixel_rgb(b_top, width as int, qx, qy) == field_rgb(*field, qx, qy));
            } else if qy == yb {
                assert(pixel_rgb(b_bot, width as int, qx, qy) == field_rgb(*field, qx, qy));
            }
        }
        if uniform {
            assert forall|qx: int, qy: int|
                #[trigger] on_rect_boundary(xl as int, xr as int, yt as int, yb as int, qx, qy)
                    implies field_rgb(*field, qx, qy) == field_rgb(
                *field,
                xl as int,
                yt as int,
            ) by {
                if qy == yt || qy == yb {
                    assert(field_rgb(*field, qx, qy) == corner_rgb);
                } else {
                    assert(yt < qy < yb);
                    assert(field_rgb(*field, qx, qy) == corner_rgb);
                }
            }
            assert(rect_boundary_uniform(*field, xl as int, xr as int, yt as int, yb as int));
        }
    }
    let ghost b_edge = buf@;

    let has_interior = xl + 1 < xr && yt + 1 < yb;
    if uniform {
        if has_interior {
            fill_rect(buf, width, height, xl + 1, xr - 1, yt + 1, yb - 1, corner_rgb);
        }
        proof {
            if field_coherent(*field, width as int, height as int) {
                assert(rect_uniform(*field, xl as int, xr as int, yt as int, yb as int));
                assert forall|qx: int, qy: int|
                    in_rect(xl as int, xr as int, yt as int, yb as int, qx, qy) implies #[trigger]
                    pixel_rgb(buf@, width as int, qx, qy) == field_rgb(*field, qx, qy) by {
                    assert(field_rgb(*field, qx, qy) == field_rgb(*field, xl as int, yt as int));
                    if on_rect_boundary(xl as int, xr as int, yt as int, yb as int, qx, qy) {
                        assert(pixel_rgb(b_edge, width as int, qx, qy) == field_rgb(
                            *field,
                            qx,
                            qy,
                        ));
                    } else {
                        assert(xl < qx < xr && yt < qy < yb);
                        assert(pixel_rgb(buf@, width as int, qx, qy) == corner_rgb);
                    }
                }
            }
        }
    } else if xr - xl < CLUSTER_LEAF || yb - yt < CLUSTER_LEAF {
        if has_interior {
            eval_rect(field, buf, width, height, xl + 1, xr - 1, yt + 1, yb - 1, max_iterations);
        }
        proof {
            assert forall|qx: int, qy: int|
                in_rect(xl as int, xr as int, yt as int, yb as int, qx, qy) implies #[trigger]
                pixel_rgb(buf@, width as int, qx, qy) == field_rgb(*field, qx, qy) by {
                if on_rect_boundary(xl as int, xr as int, yt as int, yb as int, qx, qy) {
                    assert(pixel_rgb(b_edge, width as int, qx, qy) == field_rgb(*field, qx, qy));
                } else {
                    assert(xl < qx < xr && yt < qy < yb);
                }
            }
        }
    } else {
        let n = buf.len();
        proof {
            assert(3 * width <= 3 * width * height && 3 * height <= 3 * width * height)
                by (nonlinear_arith)
                requires
                    1 <= height as int,
                    1 <= width as int,
            ;
        }
        let xm = (xl + xr) / 2;
        let ym = (yt + yb) / 2;
        compute_cluster(field, buf, width, height, xl + 1, xm, yt + 1, ym, max_iterations);
        let ghost b_q1 = buf@;
        compute_cluster(field, buf, width, height, xm + 1, xr - 1, yt + 1, ym, max_iterations);
        let ghost b_q2 = buf@;
        compute_cluster(field, buf, width, height, xl + 1, xm, ym + 1, yb - 1, max_iterations);
        let ghost b_q3 = buf@;
        compute_cluster(field, buf, width, height, xm + 1, xr - 1, ym + 1, yb - 1, max_iterations);
        proof {
            if field_coherent(*field, width as int, height as int) {
                assert forall|qx: int, qy: int|
                    in_rect(xl as int, xr as int, yt as int, yb as int, qx, qy) implies #[trigger]
                    pixel_rgb(buf@, width as int, qx, qy) == field_rgb(*field, qx, qy) by {
                    if on_rect_boundary(xl as int, xr as int, yt as int, yb as int, qx, qy) {
                        assert(pixel_rgb(b_edge, width as int, qx, qy) == field_rgb(
                            *field,
                            qx,
                            qy,
                        ));
                    } else {
                        assert(xl < qx < xr && yt < qy < yb);
                        if qy <= ym {
                            if qx <= xm {
                                assert(pixel_rgb(b_q1, width as int, qx, qy) == field_rgb(
                                    *field,
                                    qx,
                                    qy,
                                ));
                            } else {
                                assert(pixel_rgb(b_q2, width as int, qx, qy) == field_rgb(
                                    *field,
                                    qx,
                                    qy,
                                ));
                            }
                        } else {
                            if qx <= xm {
                                assert(pixel_rgb(b_q3, width as int, qx, qy) == field_rgb(
                                    *field,
                                    qx,
                                    qy,
                                ));
                            } else {
                                assert(pixel_rgb(buf@, width as int, qx, qy) == field_rgb(
                                    *field,
                                    qx,
                                    qy,
                                ));
                            }
                        }
                    }
                }
            }
        }
    }
}

/// Processes one tile of the checkerboard grid over the half raster.
///
/// In the reuse pass (`reuse_ring` true, on odd-parity tiles once every
/// even-parity tile is done) an interior tile is first compared against the
/// ring of pixels immediately surrounding it: the ring's sides are read back
/// from the neighbouring tiles and its four diagonal corners are evaluated
/// directly. When the whole ring carries the tile's own corner colour the
/// tile is flood-filled with that colour at once — the ring is then the
/// uniform boundary of the rectangle one pixel larger than the tile, so a
/// coherent field is uniform across the tile. Any other tile is compressed
/// recursively.
fn compress_tile<F: EscapeField>(
    field: &F,
    buf: &mut Vec<u8>,
    width: usize,
    half: usize,
    tiles_x: usize,
    tiles_y: usize,
    cx: usize,
    cy: usize,
    max_iterations: u32,
    reuse_ring: bool,
)
    requires
        field.wf(),
        max_iterations == field.max_iterations(),
        buffer_sized(old(buf)@, width as int, half as int),
        1 <= width,
        1 <= half,
        width + CLUSTER_SIZE <= usize::MAX,
        half + CLUSTER_SIZE <= usize::MAX,
        tiles_x == tile_count(width as int),
        tiles_y == tile_count(half as int),
        cx < tiles_x,
        cy < tiles_y,
        reuse_ring ==> (cx + cy) % 2 == 1,
        reuse_ring && field_coherent(*field, width as int, half as int) ==> forall|
            tx: int,
            ty: int,
        |
            0 <= tx < tiles_x && 0 <= ty < tiles_y && (tx + ty) % 2 == 0 ==> #[trigger] tile_exact(
                old(buf)@,
                *field,
                width as int,
                half as int,
                tx,
                ty,
            ),
    ensures
        buffer_sized(final(buf)@, width as int, half as int),
        forall|qx: int, qy: int|
            #![trigger pixel_rgb(final(buf)@, width as int, qx, qy)]
            in_raster(width as int, half as int, qx, qy) && !in_rect(
                tile_lo(cx as int),
                tile_hi(cx as int, width as int),
                tile_lo(cy as int),
                tile_hi(cy as int, half as int),
                qx,
                qy,
            ) ==> pixel_rgb(final(buf)@, width as int, qx, qy) == pixel_rgb(
                old(buf)@,
                width as int,
                qx,
                qy,
            ),
        field_coherent(*field, width as int, half as int) ==> tile_exact(
            final(buf)@,
            *field,
            width as int,
            half as int,
            cx as int,
            cy as int,
        ),
{
    proof {
        lemma_tile_cover(cx as int, width as int);
        lemma_tile_cover(cy as int, half as int);
    }
    let (xl, xr) = tile_bounds(cx, width);
    let (yt, yb) = tile_bounds(cy, half);
    if reuse_ring && cx > 0 && cy > 0 && cx + 1 < tiles_x && cy + 1 < tiles_y {
        proof {
            lemma_tile_cover(cx as int + 1, width as int);
            lemma_tile_cover(cy as int + 1, half as int);
            assert(CLUSTER_SIZE * (cx as int + 1) == CLUSTER_SIZE * (cx as int) + CLUSTER_SIZE)
                by (nonlinear_arith);
            assert(CLUSTER_SIZE * (cy as int + 1) == CLUSTER_SIZE * (cy as int) + CLUSTER_SIZE)
                by (nonlinear_arith);
            assert(CLUSTER_SIZE * (cx as int - 1) + CLUSTER_SIZE == CLUSTER_SIZE * (cx as int))
                by (nonlinear_arith);
            assert(CLUSTER_SIZE * (cy as int - 1) + CLUSTER_SIZE == CLUSTER_SIZE * (cy as int))
                by (nonlinear_arith);
            assert(1 <= CLUSTER_SIZE * (cx as int)) by (nonlinear_arith)
                requires
                    1 <= cx as int,
            ;
            assert(1 <= CLUSTER_SIZE * (cy as int)) by (nonlinear_arith)
                requires
                    1 <= cy as int,
            ;
        }
        // The tile is interior, so it has full size and a complete ring
        // around it.
        assert(xr as int == tile_lo(cx as int + 1) - 1);
        assert(yb as int == tile_lo(cy as int + 1) - 1);
        assert(xr + 1 < width && yb + 1 < half);
        let corner_count = field.at(xl, yt);
        let rgb = colour(corner_count, max_iterations);
        let m_top = row_matches(buf, width, half, xl, xr, yt - 1, rgb);
        let m_bottom = row_matches(buf, width, half, xl, xr, yb + 1, rgb);
        let m_left = col_matches(buf, width, half, xl - 1, yt, yb, rgb);
        let m_right = col_matches(buf, width, half, xr + 1, yt, yb, rgb);
        let c_tl = colour(field.at(xl - 1, yt - 1), max_iterations);
        let c_tr = colour(field.at(xr + 1, yt - 1), max_iterations);
        let c_bl = colour(field.at(xl - 1, yb + 1), max_iterations);
        let c_br = colour(field.at(xr + 1, yb + 1), max_iterations);
        let corners = c_tl.0 == rgb.0 && c_tl.1 == rgb.1 && c_tl.2 == rgb.2 && c_tr.0 == rgb.0
            && c_tr.1 == rgb.1 && c_tr.2 == rgb.2 && c_bl.0 == rgb.0 && c_bl.1 == rgb.1 && c_bl.2
            == rgb.2 && c_br.0 == rgb.0 && c_br.1 == rgb.1 && c_br.2 == rgb.2;
        if m_top && m_bottom && m_left && m_right && corners {
            fill_rect(buf, width, half, xl, xr, yt, yb, rgb);
            proof {
                if field_coherent(*field, width as int, half as int) {
                    let w = width as int;
                    let hf = half as int;
                    let exl = xl as int - 1;
                    let exr = xr as int + 1;
                    let eyt = yt as int - 1;
                    let eyb = yb as int + 1;
                    assert(tile_exact(old(buf)@, *field, w, hf, cx as int, cy as int - 1));
                    assert(tile_exact(old(buf)@, *field, w, hf, cx as int, cy as int + 1));
                    assert(tile_exact(old(buf)@, *field, w, hf, cx as int - 1, cy as int));
                    assert(tile_exact(old(buf)@, *field, w, hf, cx as int + 1, cy as int));
                    assert(tile_hi(cy as int - 1, hf) == eyt);
                    assert(tile_lo(cy as int + 1) == eyb);
                    assert(tile_hi(cx as int - 1, w) == exl);
                    assert(tile_lo(cx as int + 1) == exr);
                    assert forall|qx: int, qy: int|
                        on_rect_boundary(exl, exr, eyt, eyb, qx, qy) implies field_rgb(
                        *field,
                        qx,
                        qy,
                    ) == field_rgb(*field, exl, eyt) by {
                        if (qx == exl || qx == exr) && (qy == eyt || qy == eyb) {
                            assert(field_rgb(*field, qx, qy) == rgb);
                        } else if qy == eyt {
                            assert(xl <= qx <= xr);
                            assert(in_rect(
                                tile_lo(cx as int),
                                tile_hi(cx as int, w),
                                tile_lo(cy as int - 1),
                                tile_hi(cy as int - 1, hf),
                                qx,
                                qy,
                            ));
                            assert(pixel_rgb(old(buf)@, w, qx, qy) == field_rgb(*field, qx, qy));
                            assert(pixel_rgb(old(buf)@, w, qx, qy) == rgb);
                        } else if qy == eyb {
                            assert(xl <= qx <= xr);
                            assert(in_rect(
                                tile_lo(cx as int),
                                tile_hi(cx as int, w),
                                tile_lo(cy as int + 1),
                                tile_hi(cy as int + 1, hf),
                                qx,
                                qy,
                            ));
                            assert(pixel_rgb(old(buf)@, w, qx, qy) == field_rgb(*field, qx, qy));
                            assert(pixel_rgb(old(buf)@, w, qx, qy) == rgb);
                        } else if qx == exl {
                            assert(yt <= qy <= yb);
                            assert(in_rect(
                                tile_lo(cx as int - 1),
                                tile_hi(cx as int - 1, w),
                                tile_lo(cy as int),
                                tile_hi(cy as int, hf),
                                qx,
                                qy,
                            ));
                            assert(pixel_rgb(old(buf)@, w, qx, qy) == field_rgb(*field, qx, qy));
                            assert(pixel_rgb(old(buf)@, w, qx, qy) == rgb);
                        } else {
                            assert(qx == exr && yt <= qy <= yb);
                            assert(in_rect(
                                tile_lo(cx as int + 1),
                                tile_hi(cx as int + 1, w),
                                tile_lo(cy as int),
                                tile_hi(cy as int, hf),
                                qx,
                                qy,
                            ));
                            assert(pixel_rgb(old(buf)@, w, qx, qy) == field_rgb(*field, qx, qy));
                            assert(pixel_rgb(old(buf)@, w, qx, qy) == rgb);
                        }
                        assert(field_rgb(*field, qx, qy) == rgb);
                        assert(on_rect_boundary(exl, exr, eyt, eyb, exl, eyt));
                        assert(field_rgb(*field, exl, eyt) == rgb);
                    }
                    assert(rect_boundary_uniform(*field, exl, exr, eyt, eyb));
                    assert(rect_uniform(*field, exl, exr, eyt, eyb));
                    assert forall|qx: int, qy: int|
                        in_rect(
                            tile_lo(cx as int),
                            tile_hi(cx as int, w),
                            tile_lo(cy as int),
                            tile_hi(cy as int, hf),
                            qx,
                            qy,
                        ) implies #[trigger] pixel_rgb(buf@, w, qx, qy) == field_rgb(
                        *field,
                        qx,
                        qy,
                    ) by {
                        assert(in_rect(exl, exr, eyt, eyb, qx, qy));
                        assert(field_rgb(*field, qx, qy) == field_rgb(*field, exl, eyt));
                        assert(field_rgb(*field, exl, eyt) == rgb);
                        assert(pixel_rgb(buf@, w, qx, qy) == rgb);
                    }
                    assert(tile_exact(buf@, *field, w, hf, cx as int, cy as int));
                }
            }
            return ;
        }
        compute_cluster(field, buf, width, half, xl, xr, yt, yb, max_iterations);
        proof {
            if field_coherent(*field, width as int, half as int) {
                assert(tile_exact(buf@, *field, width as int, half as int, cx as int, cy as int));
            }
        }
    } else {
        compute_cluster(field, buf, width, half, xl, xr, yt, yb, max_iterations);
        proof {
            if field_coherent(*field, width as int, half as int) {
                assert(tile_exact(buf@, *field, width as int, half as int, cx as int, cy as int));
            }
        }
    }
}

/// Renders the raster by cluster compression over its top half, followed by
/// the conjugate mirror pass.
///
/// The half raster is covered by a grid of `CLUSTER_SIZE`-sided tiles,
/// visited in two checkerboard passes: all even-parity tiles are compressed
/// first, then each odd-parity tile may reuse the surrounding, already
/// computed ring of pixels to skip its own compression entirely. The result
/// is always symmetric about the horizontal midline; over a coherent field it
/// is pixel for pixel the raster the brute-force renderer produces.
pub fn gms_cluster_checkered<F: EscapeField>(field: &F, width: usize, height: usize) -> (buf: Vec<
    u8,
>)
    requires
        field.wf(),
        2 <= width,
        2 <= height,
        3 * width * height <= usize::MAX,
    ensures
        buffer_sized(buf@, width as int, height as int),
        forall|px: int, py: int|
            in_raster(width as int, height as int, px, py) ==> #[trigger] pixel_rgb(
                buf@,
                width as int,
                px,
                py,
            ) == pixel_rgb(buf@, width as int, px, height - 1 - py),
        field_coherent(*field, width as int, half_rows(height as int)) ==> forall|
            px: int,
            py: int,
        |
            #![trigger pixel_rgb(buf@, width as int, px, py)]
            in_raster(width as int, height as int, px, py) ==> pixel_rgb(
                buf@,
                width as int,
                px,
                py,
            ) == (if py < half_rows(height as int) {
                field_rgb(*field, px, py)
            } else {
                field_rgb(*field, px, height - 1 - py)
            }),
{
    let max_iterations = field.max_iter();
    let half = height / 2 + height % 2;
    proof {
        assert(3 * width * half <= 3 * width * height && 3 * width <= 3 * width * half && 3 * half
            <= 3 * width * half) by (nonlinear_arith)
            requires
                1 <= half <= height as int,
                1 <= width as int,
        ;
    }
    let mut hbuf: Vec<u8> = vec![0u8; 3 * width * half];
    let tiles_x = (width + (CLUSTER_SIZE - 1)) / CLUSTER_SIZE;
    let tiles_y = (half + (CLUSTER_SIZE - 1)) / CLUSTER_SIZE;
    let ghost w = width as int;
    let ghost hf = half as int;

    let mut cy: usize = 0;
    while cy < tiles_y
        invariant
            field.wf(),
            max_iterations == field.max_iterations(),
            2 <= width,
            1 <= half,
            w == width as int,
            hf == half as int,
            width + CLUSTER_SIZE <= usize::MAX,
            half + CLUSTER_SIZE <= usize::MAX,
            tiles_x == tile_count(w),
            tiles_y == tile_count(hf),
            cy <= tiles_y,
            buffer_sized(hbuf@, w, hf),
            field_coherent(*field, w, hf) ==> forall|tx: int, ty: int|
                0 <= tx < tiles_x && 0 <= ty < tiles_y && (tx + ty) % 2 == 0 && ty < cy
                    ==> #[trigger] tile_exact(hbuf@, *field, w, hf, tx, ty),
        decreases tiles_y - cy,
    {
        let mut cx: usize = 0;
        while cx < tiles_x
            invariant
                field.wf(),
                max_iterations == field.max_iterations(),
                2 <= width,
                1 <= half,
                w == width as int,
                hf == half as int,
                width + CLUSTER_SIZE <= usize::MAX,
                half + CLUSTER_SIZE <= usize::MAX,
                tiles_x == tile_count(w),
                tiles_y == tile_count(hf),
                cy < tiles_y,
                cx <= tiles_x,
                buffer_sized(hbuf@, w, hf),
                field_coherent(*field, w, hf) ==> forall|tx: int, ty: int|
                    0 <= tx < tiles_x && 0 <= ty < tiles_y && (tx + ty) % 2 == 0 && (ty < cy || (ty
                        == cy && tx < cx)) ==> #[trigger] tile_exact(hbuf@, *field, w, hf, tx, ty),
            decreases tiles_x - cx,
        {
            if (cx + cy) % 2 == 0 {
                let ghost pre = hbuf@;
                compress_tile(
                    field,
                    &mut hbuf,
                    width,
                    half,
                    tiles_x,
                    tiles_y,
                    cx,
                    cy,
                    max_iterations,
                    false,
                );
                proof {
                    if field_coherent(*field, w, hf) {
                        assert forall|tx: int, ty: int|
                            0 <= tx < tiles_x && 0 <= ty < tiles_y && (tx + ty) % 2 == 0 && (ty
                                < cy || (ty == cy && tx < cx + 1)) implies #[trigger] tile_exact(
                            hbuf@,
                            *field,
                            w,
                            hf,
                            tx,
                            ty,
                        ) by {
                            if tx == cx && ty == cy {
                            } else {
                                assert(tile_exact(pre, *field, w, hf, tx, ty));
                                lemma_tile_cover(tx, w);
                                lemma_tile_cover(ty, hf);
                                lemma_tile_exact_preserved(
                                    pre,
                                    hbuf@,
                                    *field,
                                    w,
                                    hf,
                                    tx,
                                    ty,
                                    cx as int,
                                    cy as int,
                                );
                            }
                        }
                    }
                }
            }
            cx += 1;
        }
        cy += 1;
    }

    let mut cy2: usize = 0;
    while cy2 < tiles_y
        invariant
            field.wf(),
            max_iterations == field.max_iterations(),
            2 <= width,
            1 <= half,
            w == width as int,
            hf == half as int,
            width + CLUSTER_SIZE <= usize::MAX,
            half + CLUSTER_SIZE <= usize::MAX,
            tiles_x == tile_count(w),
            tiles_y == tile_count(hf),
            cy2 <= tiles_y,
            buffer_sized(hbuf@, w, hf),
            field_coherent(*field, w, hf) ==> forall|tx: int, ty: int|
                0 <= tx < tiles_x && 0 <= ty < tiles_y && (tx + ty) % 2 == 0 ==> #[trigger]
                    tile_exact(hbuf@, *field, w, hf, tx, ty),
            field_coherent(*field, w, hf) ==> forall|tx: int, ty: int|
                0 <= tx < tiles_x && 0 <= ty < tiles_y && (tx + ty) % 2 == 1 && ty < cy2
                    ==> #[trigger] tile_exact(hbuf@, *field, w, hf, tx, ty),
        decreases tiles_y - cy2,
    {
        let mut cx2: usize = 0;
        while cx2 < tiles_x
            invariant
                field.wf(),
                max_iterations == field.max_iterations(),
                2 <= width,
                1 <= half,
                w == width as int,
                hf == half as int,
                width + CLUSTER_SIZE <= usize::MAX,
                half + CLUSTER_SIZE <= usize::MAX,
                tiles_x == tile_count(w),
                tiles_y == tile_count(hf),
                cy2 < tiles_y,
                cx2 <= tiles_x,
                buffer_sized(hbuf@, w, hf),
                field_coherent(*field, w, hf) ==> forall|tx: int, ty: int|
                    0 <= tx < tiles_x && 0 <= ty < tiles_y && (tx + ty) % 2 == 0 ==> #[trigger]
                        tile_exact(hbuf@, *field, w, hf, tx, ty),
                field_coherent(*field, w, hf) ==> forall|tx: int, ty: int|
                    0 <= tx < tiles_x && 0 <= ty < tiles_y && (tx + ty) % 2 == 1 && (ty < cy2 || (
                    ty == cy2 && tx < cx2)) ==> #[trigger] tile_exact(hbuf@, *field, w, hf, tx, ty),
            decreases tiles_x - cx2,
        {
            if (cx2 + cy2) % 2 == 1 {
                let ghost pre = hbuf@;
                compress_tile(
                    field,
                    &mut hbuf,
                    width,
                    half,
                    tiles_x,
                    tiles_y,
                    cx2,
                    cy2,
                    max_iterations,
                    true,
                );
                proof {
                    if field_coherent(*field, w, hf) {
                        assert forall|tx: int, ty: int|
                            0 <= tx < tiles_x && 0 <= ty < tiles_y && (tx + ty) % 2 == 0 implies
                            #[trigger] tile_exact(hbuf@, *field, w, hf, tx, ty) by {
                            assert(tile_exact(pre, *field, w, hf, tx, ty));
                            lemma_tile_cover(tx, w);
                            lemma_tile_cover(ty, hf);
                            lemma_tile_exact_preserved(
                                pre,
                                hbuf@,
                                *field,
                                w,
                                hf,
                                tx,
                                ty,
                                cx2 as int,
                                cy2 as int,
                            );
                        }
                        assert forall|tx: int, ty: int|
                            0 <= tx < tiles_x && 0 <= ty < tiles_y && (tx + ty) % 2 == 1 && (ty
                                < cy2 || (ty == cy2 && tx < cx2 + 1)) implies #[trigger] tile_exact(
                            hbuf@,
                            *field,
                            w,
                            hf,
                            tx,
                            ty,
                        ) by {
                            if tx == cx2 && ty == cy2 {
                            } else {
                                assert(tile_exact(pre, *field, w, hf, tx, ty));
                                lemma_tile_cover(tx, w);
                                lemma_tile_cover(ty, hf);
                                lemma_tile_exact_preserved(
                                    pre,
                                    hbuf@,
                                    *field,
                                    w,
                                    hf,
                                    tx,
                                    ty,
                                    cx2 as int,
                                    cy2 as int,
                                );
                            }
                        }
                    }
                }
            }
            cx2 += 1;
        }
        cy2 += 1;
    }

    // Every pixel of the half raster lies in some tile, so under coherence
    // the whole half is exact.
    proof {
        if field_coherent(*field, w, hf) {
            assert forall|qx: int, qy: int| in_raster(w, hf, qx, qy) implies #[trigger] pixel_rgb(
                hbuf@,
                w,
                qx,
                qy,
            ) == field_rgb(*field, qx, qy) by {
                lemma_tile_of(qx, w);
                lemma_tile_of(qy, hf);
                let tx = qx / (CLUSTER_SIZE as int);
                let ty = qy / (CLUSTER_SIZE as int);
                if (tx + ty) % 2 == 0 {
                    assert(tile_exact(hbuf@, *field, w, hf, tx, ty));
                } else {
                    assert((tx + ty) % 2 == 1);
                    assert(tile_exact(hbuf@, *field, w, hf, tx, ty));
                }
                assert(in_rect(tile_lo(tx), tile_hi(tx, w), tile_lo(ty), tile_hi(ty, hf), qx, qy));
            }
        }
    }

    let ghost hview = hbuf@;
    let buf = mirror_extend(hbuf, width, height);
    proof {
        assert(hf == half_rows(height as int));
        assert forall|px: int, py: int|
            in_raster(width as int, height as int, px, py) implies #[trigger] pixel_rgb(
            buf@,
            width as int,
            px,
            py,
        ) == pixel_rgb(buf@, width as int, px, height - 1 - py) by {
            let my = height - 1 - py;
            if my == py {
            } else if py < hf {
                assert(my >= hf);
                assert(pixel_rgb(buf@, w, px, py) == pixel_rgb(hview, w, px, py));
                assert(pixel_rgb(buf@, w, px, my) == pixel_rgb(hview, w, px, height - 1 - my));
            } else {
                assert(my < hf);
                assert(pixel_rgb(buf@, w, px, my) == pixel_rgb(hview, w, px, my));
                assert(pixel_rgb(buf@, w, px, py) == pixel_rgb(hview, w, px, height - 1 - py));
            }
        }
        if field_coherent(*field, w, half_rows(height as int)) {
            assert forall|px: int, py: int|
                in_raster(width as int, height as int, px, py) implies #[trigger] pixel_rgb(
                buf@,
                width as int,
                px,
                py,
            ) == (if py < half_rows(height as int) {
                field_rgb(*field, px, py)
            } else {
                field_rgb(*field, px, height - 1 - py)
            }) by {
                if py < hf {
                    assert(pixel_rgb(buf@, w, px, py) == pixel_rgb(hview, w, px, py));
                    assert(in_raster(w, hf, px, py));
                } else {
                    assert(pixel_rgb(buf@, w, px, py) == pixel_rgb(hview, w, px, height - 1 - py));
                    assert(in_raster(w, hf, px, height - 1 - py));
                }
            }
        }
    }
    buf
}

/// Compression is exact: over a field that is coherent on the computed half
/// and conjugate-symmetric about the midline, the compressed raster equals
/// the brute-force raster byte for byte.
pub proof fn lemma_cluster_matches_gms<F: EscapeField>(
    f: F,
    compressed: Seq<u8>,
    full: Seq<u8>,
    width: int,
    height: int,
)
    requires
        1 <= width,
        1 <= height,
        buffer_sized(compressed, width, height),
        buffer_sized(full, width, height),
        field_coherent(f, width, half_rows(height)),
        forall|px: int, py: int|
            #![trigger pixel_rgb(compressed, width, px, py)]
            in_raster(width, height, px, py) ==> pixel_rgb(compressed, width, px, py) == (if py
                < half_rows(height) {
                field_rgb(f, px, py)
            } else {
                field_rgb(f, px, height - 1 - py)
            }),
        forall|px: int, py: int|
            in_raster(width, height, px, py) ==> pixel_coloured(full, f, width, px, py),
        forall|px: int, py: int|
            in_raster(width, height, px, py) ==> #[trigger] f.count_at(px, py) == f.count_at(
                px,
                height - 1 - py,
            ),
    ensures
        compressed == full,
{
    assert forall|px: int, py: int|
        in_raster(width, height, px, py) implies pixel_rgb(compressed, width, px, py) == pixel_rgb(
        full,
        width,
        px,
        py,
    ) by {
        assert(pixel_coloured(full, f, width, px, py));
        if py >= half_rows(height) {
            assert(f.count_at(px, py) == f.count_at(px, height - 1 - py));
        }
    }
    lemma_buffer_pixel_ext(compressed, full, width, height);
}

} // verus!
