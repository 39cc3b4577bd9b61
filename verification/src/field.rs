//! Escape-count sources.
//!
//! The numeric kernel that iterates `z * z + c` over the complex plane works
//! on floating-point numbers and lives with the caller; the rasterizer only
//! ever sees the escape count of a pixel. An [`EscapeField`] is such a source
//! of counts: a deterministic assignment of one count to every pixel, exposed
//! to the rasterizer one evaluation at a time, so that the compression
//! algorithm can skip evaluations it proves it does not need.
//!
//! [`GridField`] is the precomputed backing: a row-major grid of counts, as a
//! plain value. It is what tests and callers without a live kernel use.

use vstd::prelude::*;

verus! {

/// A source of escape counts. `count_at` is the mathematical field itself: a
/// function of the pixel alone, so that evaluating a pixel twice gives the
/// same count. `at` evaluates it, and always yields a count in
/// `[1, max_iterations]`: the escape loop runs at least one iteration before
/// it can stop. The three specification members have defaults so that an
/// unverified implementation need only supply the two executable methods;
/// such a field keeps the default `wf` of `false` and stays opaque — no
/// contract of this crate claims anything about what it renders to.
pub trait EscapeField: Sized {
    /// Whether the field is well formed.
    open spec fn wf(&self) -> bool {
        false
    }

    /// The iteration ceiling the field was computed with.
    open spec fn max_iterations(&self) -> u32 {
        1u32
    }

    /// The escape count of pixel `(px, py)`.
    open spec fn count_at(&self, px: int, py: int) -> u32 {
        1u32
    }

    /// Evaluates the field at one pixel.
    fn at(&self, px: usize, py: usize) -> (count: u32)
        requires
            self.wf(),
        ensures
            count == self.count_at(px as int, py as int),
            1 <= count <= self.max_iterations(),
    ;

    /// The iteration ceiling, as a run-time value.
    fn max_iter(&self) -> (m: u32)
        requires
            self.wf(),
        ensures
            m == self.max_iterations(),
            1 <= m,
    ;
}

/// An escape field backed by a precomputed row-major grid of counts. Outside
/// the grid the field is constantly the iteration ceiling.
pub struct GridField {
    counts: Vec<u32>,
    width: usize,
    height: usize,
    max_iterations: u32,
}

impl GridField {
    /// The grid invariant: one count per pixel, all in `[1, max_iterations]`.
    pub closed spec fn inv(&self) -> bool {
        &&& self.counts@.len() == self.width * self.height
        &&& 1 <= self.max_iterations
        &&& forall|i: int|
            0 <= i < self.counts@.len() ==> 1 <= #[trigger] self.counts@[i]
                <= self.max_iterations
    }

    /// Builds a field from a grid of counts.
    pub fn new(counts: Vec<u32>, width: usize, height: usize, max_iterations: u32) -> (field:
        GridField)
        requires
            counts@.len() == width * height,
            1 <= max_iterations,
            forall|i: int|
                0 <= i < counts@.len() ==> 1 <= #[trigger] counts@[i] <= max_iterations,
        ensures
            field.wf(),
            field.max_iterations() == max_iterations,
            forall|px: int, py: int|
                0 <= px < width && 0 <= py < height ==> #[trigger] field.count_at(px, py)
                    == counts@[py * width + px],
    {
        GridField { counts, width, height, max_iterations }
    }
}

impl EscapeField for GridField {
    closed spec fn wf(&self) -> bool {
        self.inv()
    }

    closed spec fn max_iterations(&self) -> u32 {
        self.max_iterations
    }

    closed spec fn count_at(&self, px: int, py: int) -> u32 {
        if 0 <= px < self.width && 0 <= py < self.height && self.counts@.len() == self.width
            * self.height {
            self.counts@[py * self.width + px]
        } else {
            self.max_iterations
        }
    }

    fn at(&self, px: usize, py: usize) -> u32
    {
        if px < self.width && py < self.height {
            let n = self.counts.len();
            proof {
                let w = self.width as int;
                let h = self.height as int;
                assert(0 <= py * w + px && py * w + px + 1 <= w * h) by (nonlinear_arith)
                    requires
                        0 <= px < w,
                        0 <= py < h,
                ;
            }
            let i = py * self.width + px;
            self.counts[i]
        } else {
            self.max_iterations
        }
    }

    fn max_iter(&self) -> u32 {
        self.max_iterations
    }
}

} // verus!
