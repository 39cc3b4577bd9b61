//! Scheduler determinism: the assembled buffer depends on the row contents
//! alone — not on the worker budget, the admission order or the order in
//! which rows are completed.

use mandelbrot::field::GridField;
use mandelbrot::render::gms_half;
use mandelbrot::schedule::gms_scheduled;
use mandelbrot::schedule::render_row;
use mandelbrot::schedule::RowScheduler;

fn escape_time(y0: f32, x0: f32, max_iterations: u32) -> u32 {
    let mut iterations = 0;

    let mut x = 0.0;
    let mut y = 0.0;
    let mut x2 = 0.0;
    let mut y2 = 0.0;
    while x2 + y2 <= 4.0 && iterations < max_iterations {
        y = 2.0 * x * y + y0;
        x = x2 - y2 + x0;
        x2 = x * x;
        y2 = y * y;

        iterations += 1;
    }

    iterations
}

fn symmetric_field(width: usize, height: usize, max_iterations: u32) -> GridField {
    let scale_x = 3.0 / ((width - 1) as f32);
    let scale_y = 2.0 / ((height - 1) as f32);
    let half = height / 2 + height % 2;
    let mut counts = vec![0u32; width * height];
    for py in 0..half {
        for px in 0..width {
            let c = escape_time(
                -1.0 + scale_y * (py as f32),
                -2.0 + scale_x * (px as f32),
                max_iterations,
            );
            counts[py * width + px] = c;
            counts[(height - 1 - py) * width + px] = c;
        }
    }
    GridField::new(counts, width, height, max_iterations)
}

#[test]
fn worker_budget_does_not_change_the_buffer() {
    let width = 40;
    let height = 32;
    let field = symmetric_field(width, height, 100);
    let one = gms_scheduled(&field, width, height, 1);
    let four = gms_scheduled(&field, width, height, 4);
    let eight = gms_scheduled(&field, width, height, 8);
    assert_eq!(one, four);
    assert_eq!(four, eight);
}

#[test]
fn scheduled_render_matches_half_render() {
    let width = 36;
    let height = 28;
    let field = symmetric_field(width, height, 150);
    let scheduled = gms_scheduled(&field, width, height, 4);
    let half = gms_half(&field, width, height);
    assert_eq!(scheduled, half);
}

#[test]
fn completion_order_does_not_change_the_buffer() {
    let width = 24;
    let n_rows = 6;
    let field = symmetric_field(width, 2 * n_rows, 80);
    let rows: Vec<Vec<u8>> = (0..n_rows).map(|py| render_row(&field, width, py)).collect();

    // In-order completion, window of 2.
    let mut a = RowScheduler::new(width, n_rows, 1);
    loop {
        match a.next_task() {
            Some(i) => a.complete(i, &rows[i]),
            None => {
                if a.is_done() {
                    break;
                }
            }
        }
    }
    let buf_a = a.into_buffer();

    // Out-of-order completion: admit a full window of 4, then complete the
    // window back to front.
    let mut b = RowScheduler::new(width, n_rows, 3);
    let mut pending: Vec<usize> = Vec::new();
    loop {
        match b.next_task() {
            Some(i) => pending.push(i),
            None => {
                if let Some(i) = pending.pop() {
                    b.complete(i, &rows[i]);
                } else if b.is_done() {
                    break;
                }
            }
        }
    }
    let buf_b = b.into_buffer();

    assert_eq!(buf_a, buf_b);
}

#[test]
fn window_bounds_admissions() {
    let width = 8;
    let n_rows = 10;
    let field = symmetric_field(width, 2 * n_rows, 50);
    let mut s = RowScheduler::new(width, n_rows, 2);
    // The window is workers + 1 = 3 tasks wide.
    assert_eq!(s.next_task(), Some(0));
    assert_eq!(s.next_task(), Some(1));
    assert_eq!(s.next_task(), Some(2));
    assert_eq!(s.next_task(), None);
    assert_eq!(s.in_flight(), 3);
    s.complete(1, &render_row(&field, width, 1));
    assert_eq!(s.in_flight(), 2);
    assert_eq!(s.next_task(), Some(3));
    assert!(!s.is_done());
}
