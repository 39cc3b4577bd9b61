//! The colour quantization: black ceiling, exact channel values, and the
//! palette period of `3 * COLOUR_DEPTH` iterations.

use mandelbrot::colour::colour;
use mandelbrot::colour::COLOUR_BRIGHTNESS;
use mandelbrot::colour::COLOUR_CYCLE;
use mandelbrot::colour::COLOUR_DEPTH;
use mandelbrot::colour::COLOUR_SCALE;

#[test]
fn constants_are_consistent() {
    assert_eq!(COLOUR_DEPTH, 0xff >> (8 - COLOUR_SCALE));
    assert_eq!(COLOUR_BRIGHTNESS, 0xff >> COLOUR_SCALE);
    assert_eq!(COLOUR_CYCLE, 3 * COLOUR_DEPTH);
}

#[test]
fn ceiling_is_black() {
    assert_eq!(colour(256, 256), (0, 0, 0));
    assert_eq!(colour(1, 1), (0, 0, 0));
    assert_eq!(colour(32768, 32768), (0, 0, 0));
}

#[test]
fn exact_channel_values() {
    // index 1: blue digit 1.
    assert_eq!(colour(1, 256), (0, 0, 15));
    // index 2: blue digit 2.
    assert_eq!(colour(2, 256), (0, 0, 30));
    // index 14: blue digit 14 -> 210, the largest channel value.
    assert_eq!(colour(14, 256), (0, 0, 210));
    // index 15: one full green digit, blue back to 0.
    assert_eq!(colour(15, 256), (0, 15, 0));
    // index 30: two green digits.
    assert_eq!(colour(30, 256), (0, 30, 0));
    // index 45, the last of the cycle: three green digits.
    assert_eq!(colour(45, 256), (0, 45, 0));
    // iterations 300: index 1 + (299 % 45) = 30.
    assert_eq!(colour(300, 256), (0, 30, 0));
}

#[test]
fn palette_cycles_with_period_three_depth() {
    let max_iterations = 32768;
    for i in 1..200u32 {
        if i != max_iterations && i + COLOUR_CYCLE != max_iterations {
            assert_eq!(
                colour(i, max_iterations),
                colour(i + COLOUR_CYCLE, max_iterations),
                "period broken at {i}"
            );
        }
    }
    // A count equal to the ceiling is black even where its colour index would
    // coincide with a coloured count's.
    assert_eq!(colour(46, 46), (0, 0, 0));
    assert_ne!(colour(46, 64), (0, 0, 0));
}

#[test]
fn same_index_same_colour() {
    // Counts whose predecessors agree modulo the cycle get one colour.
    assert_eq!(colour(7, 1000), colour(7 + 45 * 13, 1000));
    assert_eq!(colour(44, 1000), colour(44 + 45 * 2, 1000));
}
