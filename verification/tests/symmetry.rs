//! The conjugate-symmetry plane: a half-rendered raster is symmetric about
//! the horizontal midline and equals the brute-force raster of a symmetric
//! field.

use mandelbrot::field::GridField;
use mandelbrot::render::gms;
use mandelbrot::render::gms_half;

fn escape_time_with_bulb_period(y0: f32, x0: f32, max_iterations: u32) -> u32 {
    let q = (x0 - 0.25) * (x0 - 0.25) + y0 * y0;
    let mut iterations = if q * (q + (x0 - 0.25)) <= 0.25 * y0 * y0 { max_iterations } else { 0 };

    let mut period = 0;
    let mut x_old = 0.0;
    let mut y_old = 0.0;

    let mut x = 0.0;
    let mut y = 0.0;
    let mut x2 = 0.0;
    let mut y2 = 0.0;
    while x2 + y2 <= 4.0 && iterations < max_iterations {
        y = 2.0 * x * y + y0;
        x = x2 - y2 + x0;
        x2 = x * x;
        y2 = y * y;

        iterations += 1;
        period += 1;

        if x == x_old && y == y_old {
            iterations = max_iterations;
        } else if period == 60 {
            period = 0;
            x_old = x;
            y_old = y;
        }
    }

    iterations
}

/// Counts over the viewport, computed for the top half of the rows and
/// mirrored row by row, so the grid is conjugate-symmetric by construction.
fn symmetric_field(
    x0: f32,
    x1: f32,
    y0: f32,
    y1: f32,
    width: usize,
    height: usize,
    max_iterations: u32,
) -> GridField {
    let scale_x = (x1 - x0) / ((width - 1) as f32);
    let scale_y = (y1 - y0) / ((height - 1) as f32);
    let half = height / 2 + height % 2;
    let mut counts = vec![0u32; width * height];
    for py in 0..half {
        for px in 0..width {
            let c = escape_time_with_bulb_period(
                y0 + scale_y * (py as f32),
                x0 + scale_x * (px as f32),
                max_iterations,
            );
            counts[py * width + px] = c;
            counts[(height - 1 - py) * width + px] = c;
        }
    }
    GridField::new(counts, width, height, max_iterations)
}

fn pixel(buf: &[u8], width: usize, px: usize, py: usize) -> (u8, u8, u8) {
    let p = 3 * (py * width + px);
    (buf[p], buf[p + 1], buf[p + 2])
}

#[test]
fn half_render_is_symmetric() {
    let width = 48;
    let height = 40;
    let field = symmetric_field(-2.0, 1.0, -1.0, 1.0, width, height, 128);
    let buf = gms_half(&field, width, height);
    assert_eq!(buf.len(), 3 * width * height);
    for py in 0..height {
        for px in 0..width {
            assert_eq!(
                pixel(&buf, width, px, py),
                pixel(&buf, width, px, height - 1 - py),
                "mirror broken at ({px}, {py})"
            );
        }
    }
}

#[test]
fn half_render_is_symmetric_odd_height() {
    let width = 33;
    let height = 21;
    let field = symmetric_field(-2.0, 1.0, -1.0, 1.0, width, height, 64);
    let buf = gms_half(&field, width, height);
    assert_eq!(buf.len(), 3 * width * height);
    for py in 0..height {
        for px in 0..width {
            assert_eq!(
                pixel(&buf, width, px, py),
                pixel(&buf, width, px, height - 1 - py),
            );
        }
    }
}

#[test]
fn half_render_matches_brute_force_on_symmetric_field() {
    let width = 40;
    let height = 30;
    let field = symmetric_field(-2.0, 1.0, -1.0, 1.0, width, height, 200);
    let half = gms_half(&field, width, height);
    let full = gms(&field, width, height);
    assert_eq!(half, full);
}

#[test]
fn smallest_raster_renders() {
    let field = symmetric_field(-2.0, 1.0, -1.0, 1.0, 2, 2, 16);
    let buf = gms_half(&field, 2, 2);
    assert_eq!(buf.len(), 12);
    assert_eq!(pixel(&buf, 2, 0, 0), pixel(&buf, 2, 0, 1));
    assert_eq!(pixel(&buf, 2, 1, 0), pixel(&buf, 2, 1, 1));
}
