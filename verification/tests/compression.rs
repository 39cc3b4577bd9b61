//! Compression exactness: the cluster compressor's raster equals the
//! brute-force raster byte for byte, on viewports entirely outside the set,
//! straddling its boundary, and entirely inside it.

use mandelbrot::cluster::gms_cluster_checkered;
use mandelbrot::field::GridField;
use mandelbrot::render::gms;

fn escape_time_with_bulb_period(y0: f32, x0: f32, max_iterations: u32) -> u32 {
    let q = (x0 - 0.25) * (x0 - 0.25) + y0 * y0;
    let mut iterations = if q * (q + (x0 - 0.25)) <= 0.25 * y0 * y0 { max_iterations } else { 0 };

    let mut period = 0;
    let mut x_old = 0.0;
    let mut y_old = 0.0;

    let mut x = 0.0;
    let mut y = 0.0;
    let mut x2 = 0.0;
    let mut y2 = 0.0;
    while x2 + y2 <= 4.0 && iterations < max_iterations {
        y = 2.0 * x * y + y0;
        x = x2 - y2 + x0;
        x2 = x * x;
        y2 = y * y;

        iterations += 1;
        period += 1;

        if x == x_old && y == y_old {
            iterations = max_iterations;
        } else if period == 60 {
            period = 0;
            x_old = x;
            y_old = y;
        }
    }

    iterations
}

fn symmetric_field(
    x0: f32,
    x1: f32,
    y0: f32,
    y1: f32,
    width: usize,
    height: usize,
    max_iterations: u32,
) -> GridField {
    let scale_x = (x1 - x0) / ((width - 1) as f32);
    let scale_y = (y1 - y0) / ((height - 1) as f32);
    let half = height / 2 + height % 2;
    let mut counts = vec![0u32; width * height];
    for py in 0..half {
        for px in 0..width {
            let c = escape_time_with_bulb_period(
                y0 + scale_y * (py as f32),
                x0 + scale_x * (px as f32),
                max_iterations,
            );
            counts[py * width + px] = c;
            counts[(height - 1 - py) * width + px] = c;
        }
    }
    GridField::new(counts, width, height, max_iterations)
}

#[test]
fn compression_exact_outside_the_set() {
    // Every point of this viewport escapes immediately.
    let width = 96;
    let height = 80;
    let field = symmetric_field(2.0, 3.0, -2.5, 2.5, width, height, 256);
    let compressed = gms_cluster_checkered(&field, width, height);
    let brute = gms(&field, width, height);
    assert_eq!(compressed, brute);
}

#[test]
fn compression_exact_straddling_the_boundary() {
    // The classic full view of the set; tiles inside, outside and on the
    // boundary, including interior tiles eligible for the checkerboard
    // shortcut.
    let width = 144;
    let height = 192;
    let field = symmetric_field(-2.0, 1.0, -1.0, 1.0, width, height, 256);
    let compressed = gms_cluster_checkered(&field, width, height);
    let brute = gms(&field, width, height);
    assert_eq!(compressed, brute);
}

#[test]
fn compression_exact_inside_the_set() {
    // A window well within the main cardioid: everything is black.
    let width = 96;
    let height = 80;
    let field = symmetric_field(-0.2, 0.2, -0.2, 0.2, width, height, 128);
    let compressed = gms_cluster_checkered(&field, width, height);
    let brute = gms(&field, width, height);
    assert_eq!(compressed, brute);
    assert!(compressed.iter().all(|&b| b == 0));
}

#[test]
fn incoherent_field_still_renders_symmetric() {
    // A field with a single odd pixel buried inside a uniform region is not
    // spatially coherent: the compressor may flood-fill over it, so byte
    // equality with brute force is not promised. Size and mirror symmetry
    // still are.
    let width = 64;
    let height = 64;
    let mut counts = vec![1u32; width * height];
    counts[10 * width + 10] = 2;
    counts[(height - 1 - 10) * width + 10] = 2;
    let field = GridField::new(counts, width, height, 8);
    let buf = gms_cluster_checkered(&field, width, height);
    assert_eq!(buf.len(), 3 * width * height);
    for py in 0..height {
        for px in 0..width {
            let p = 3 * (py * width + px);
            let m = 3 * ((height - 1 - py) * width + px);
            assert_eq!(buf[p..p + 3], buf[m..m + 3]);
        }
    }
}

#[test]
fn compression_exact_on_ragged_tiles() {
    // Dimensions that are no multiple of the tile size, so edge tiles are
    // clipped.
    let width = 75;
    let height = 50;
    let field = symmetric_field(-2.0, 1.0, -1.0, 1.0, width, height, 200);
    let compressed = gms_cluster_checkered(&field, width, height);
    let brute = gms(&field, width, height);
    assert_eq!(compressed, brute);
}
