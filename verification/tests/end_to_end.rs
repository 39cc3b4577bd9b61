//! End-to-end scenario: the classic viewport rendered through the compressor
//! and through the scheduler, with known pixel values.

use mandelbrot::cluster::gms_cluster_checkered;
use mandelbrot::colour::colour;
use mandelbrot::field::EscapeField;
use mandelbrot::field::GridField;
use mandelbrot::schedule::gms_scheduled;

fn escape_time_with_bulb_period(y0: f32, x0: f32, max_iterations: u32) -> u32 {
    let q = (x0 - 0.25) * (x0 - 0.25) + y0 * y0;
    let mut iterations = if q * (q + (x0 - 0.25)) <= 0.25 * y0 * y0 { max_iterations } else { 0 };

    let mut period = 0;
    let mut x_old = 0.0;
    let mut y_old = 0.0;

    let mut x = 0.0;
    let mut y = 0.0;
    let mut x2 = 0.0;
    let mut y2 = 0.0;
    while x2 + y2 <= 4.0 && iterations < max_iterations {
        y = 2.0 * x * y + y0;
        x = x2 - y2 + x0;
        x2 = x * x;
        y2 = y * y;

        iterations += 1;
        period += 1;

        if x == x_old && y == y_old {
            iterations = max_iterations;
        } else if period == 60 {
            period = 0;
            x_old = x;
            y_old = y;
        }
    }

    iterations
}

const WIDTH: usize = 192;
const HEIGHT: usize = 128;
const MAX_ITERATIONS: u32 = 256;

fn classic_field() -> GridField {
    let scale_x = 3.0 / ((WIDTH - 1) as f32);
    let scale_y = 2.0 / ((HEIGHT - 1) as f32);
    let half = HEIGHT / 2;
    let mut counts = vec![0u32; WIDTH * HEIGHT];
    for py in 0..half {
        for px in 0..WIDTH {
            let c = escape_time_with_bulb_period(
                -1.0 + scale_y * (py as f32),
                -2.0 + scale_x * (px as f32),
                MAX_ITERATIONS,
            );
            counts[py * WIDTH + px] = c;
            counts[(HEIGHT - 1 - py) * WIDTH + px] = c;
        }
    }
    GridField::new(counts, WIDTH, HEIGHT, MAX_ITERATIONS)
}

fn pixel(buf: &[u8], px: usize, py: usize) -> (u8, u8, u8) {
    let p = 3 * (py * WIDTH + px);
    (buf[p], buf[p + 1], buf[p + 2])
}

#[test]
fn classic_viewport_known_pixels() {
    let field = classic_field();
    let buf = gms_cluster_checkered(&field, WIDTH, HEIGHT);
    assert_eq!(buf.len(), 3 * WIDTH * HEIGHT);

    // The pixel near the origin of the plane lies inside the set: black.
    assert_eq!(pixel(&buf, 96, 64), (0, 0, 0));

    // The top-left pixel is far outside the set and escapes after one
    // iteration; its colour is the mapper's value for that count.
    let scale_x = 3.0 / ((WIDTH - 1) as f32);
    let scale_y = 2.0 / ((HEIGHT - 1) as f32);
    let corner_count = escape_time_with_bulb_period(-1.0, -2.0, MAX_ITERATIONS);
    assert_eq!(corner_count, 1);
    assert_eq!(pixel(&buf, 0, 0), colour(corner_count, MAX_ITERATIONS));

    // A sample on the escaping side, checked against the kernel directly.
    let sample_count = escape_time_with_bulb_period(
        -1.0 + scale_y * 10.0,
        -2.0 + scale_x * 20.0,
        MAX_ITERATIONS,
    );
    assert_eq!(pixel(&buf, 20, 10), colour(sample_count, MAX_ITERATIONS));
}

#[test]
fn compressor_and_scheduler_agree_end_to_end() {
    let field = classic_field();
    let compressed = gms_cluster_checkered(&field, WIDTH, HEIGHT);
    let scheduled = gms_scheduled(&field, WIDTH, HEIGHT, 8);
    assert_eq!(compressed, scheduled);
}

#[test]
fn grid_field_is_constant_ceiling_off_grid() {
    // Outside its grid a count field reports the iteration ceiling.
    let field = GridField::new(vec![1, 2, 3, 4], 2, 2, 9);
    assert_eq!(field.at(0, 0), 1);
    assert_eq!(field.at(1, 1), 4);
    assert_eq!(field.at(2, 0), 9);
    assert_eq!(field.at(0, 7), 9);
}
