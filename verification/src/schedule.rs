//! Bounded-window row scheduling.
//!
//! The raster is partitioned into row tasks before any worker starts. The
//! coordinator admits at most `workers + 1` tasks into flight at a time;
//! workers compute rows ([`render_row`]) and hand them back, and each
//! finished row is placed into the shared buffer at the byte offset derived
//! from its row index — never from its completion order. The final buffer is
//! therefore a function of the row contents alone: any admission order, any
//! worker count and any interleaving of completions that delivers the same
//! rows yields the identical buffer ([`lemma_scheduler_determinism`]).
//!
//! The scheduler itself owns the buffer and performs no escape computation;
//! running workers in parallel is the caller's business.

use vstd::prelude::*;

use crate::colour::colour_row;
use crate::colour::colour_spec;
use crate::field::EscapeField;
use crate::raster::buffer_sized;
use crate::raster::in_raster;
use crate::raster::pixel_rgb;
use crate::render::field_rgb;
use crate::render::half_rows;
use crate::render::mirror_extend;
use crate::render::pixel_coloured;

verus! {

/// The RGB triple of pixel `px` of a single row of bytes.
pub open spec fn row_rgb(s: Seq<u8>, px: int) -> (u8, u8, u8) {
    (s[3 * px], s[3 * px + 1], s[3 * px + 2])
}

/// The byte slice of row `py` in a row-major buffer of `width` columns.
pub open spec fn row_seq(s: Seq<u8>, width: int, py: int) -> Seq<u8> {
    s.subrange(3 * width * py, 3 * width * py + 3 * width)
}

/// Number of `true` entries of a boolean sequence.
pub closed spec fn count_trues(s: Seq<bool>) -> int
    decreases s.len(),
{
    if s.len() == 0 {
        0
    } else {
        count_trues(s.drop_last()) + if s.last() {
            1int
        } else {
            0int
        }
    }
}

proof fn lemma_count_trues_bounds(s: Seq<bool>)
    ensures
        0 <= count_trues(s) <= s.len(),
    decreases s.len(),
{
    if s.len() > 0 {
        lemma_count_trues_bounds(s.drop_last());
    }
}

proof fn lemma_count_trues_update(s: Seq<bool>, i: int)
    requires
        0 <= i < s.len(),
        !s[i],
    ensures
        count_trues(s.update(i, true)) == count_trues(s) + 1,
    decreases s.len(),
{
    let t = s.update(i, true);
    if i == s.len() - 1 {
        assert(t.drop_last() =~= s.drop_last());
    } else {
        assert(t.drop_last() =~= s.drop_last().update(i, true));
        lemma_count_trues_update(s.drop_last(), i);
    }
}

proof fn lemma_count_trues_below(s: Seq<bool>, m: int, i: int)
    requires
        0 <= i < m <= s.len(),
        !s[i],
        forall|j: int| 0 <= j < s.len() && #[trigger] s[j] ==> j < m,
    ensures
        count_trues(s) < m,
    decreases s.len(),
{
    lemma_count_trues_bounds(s.drop_last());
    if s.len() > m {
        assert(!s.last());
        lemma_count_trues_below(s.drop_last(), m, i);
    } else {
        if i == s.len() - 1 {
            assert(!s.last());
        } else {
            lemma_count_trues_below(s.drop_last(), m - 1, i);
        }
    }
}

proof fn lemma_count_trues_full(s: Seq<bool>)
    requires
        count_trues(s) == s.len(),
    ensures
        forall|i: int| 0 <= i < s.len() ==> s[i],
    decreases s.len(),
{
    if s.len() > 0 {
        lemma_count_trues_bounds(s.drop_last());
        lemma_count_trues_full(s.drop_last());
        assert forall|i: int| 0 <= i < s.len() implies s[i] by {
            if i < s.len() - 1 {
                assert(s.drop_last()[i]);
            }
        }
    }
}

/// Computes the colours of one raster row of the field.
pub fn render_row<F: EscapeField>(field: &F, width: usize, py: usize) -> (row: Vec<u8>)
    requires
        field.wf(),
        1 <= width,
        3 * width <= usize::MAX,
    ensures
        row@.len() == 3 * width,
        forall|qx: int|
            0 <= qx < width ==> #[trigger] row_rgb(row@, qx) == field_rgb(
                *field,
                qx,
                py as int,
            ),
{
    let max_iterations = field.max_iter();
    let mut row: Vec<u8> = vec![0u8; 3 * width];
    let mut px: usize = 0;
    while px < width
        invariant
            field.wf(),
            max_iterations == field.max_iterations(),
            1 <= field.max_iterations(),
            px <= width,
            row@.len() == 3 * width,
            forall|qx: int|
                0 <= qx < px ==> #[trigger] row_rgb(row@, qx) == field_rgb(
                    *field,
                    qx,
                    py as int,
                ),
        decreases width - px,
    {
        let ghost prev = row@;
        let count = field.at(px, py);
        colour_row(&mut row, px, count, max_iterations);
        proof {
            assert forall|qx: int| 0 <= qx < px + 1 implies #[trigger] row_rgb(row@, qx)
                == field_rgb(*field, qx, py as int) by {
                if qx < px {
                    assert(row_rgb(prev, qx) == field_rgb(*field, qx, py as int));
                    assert(row@[3 * qx] == prev[3 * qx] && row@[3 * qx + 1] == prev[3 * qx + 1]
                        && row@[3 * qx + 2] == prev[3 * qx + 2]);
                }
            }
        }
        px += 1;
    }
    row
}

/// The coordinator of one render: a fixed set of row tasks, a sliding
/// admission window, and the shared buffer that finished rows are placed
/// into by their index.
pub struct RowScheduler {
    width: usize,
    n_rows: usize,
    window: usize,
    admitted: usize,
    n_placed: usize,
    placed: Vec<bool>,
    buf: Vec<u8>,
    rows: Ghost<Map<int, Seq<u8>>>,
}

impl RowScheduler {
    /// Columns of the raster being assembled.
    pub closed spec fn width(&self) -> int {
        self.width as int
    }

    /// Number of row tasks.
    pub closed spec fn n_rows(&self) -> int {
        self.n_rows as int
    }

    /// Most tasks allowed in flight at once.
    pub closed spec fn window(&self) -> int {
        self.window as int
    }

    /// Tasks admitted so far; tasks are admitted in index order.
    pub closed spec fn admitted(&self) -> int {
        self.admitted as int
    }

    /// Whether row `i` has been completed and placed.
    pub closed spec fn placed(&self, i: int) -> bool {
        self.placed@[i]
    }

    /// Number of rows placed so far.
    pub closed spec fn n_placed(&self) -> int {
        self.n_placed as int
    }

    /// The rows placed so far, by index.
    pub closed spec fn rows(&self) -> Map<int, Seq<u8>> {
        self.rows@
    }

    /// All rows have been placed.
    pub open spec fn done(&self) -> bool {
        forall|i: int| 0 <= i < self.n_rows() ==> self.placed(i)
    }

    /// The scheduler invariant.
    pub closed spec fn wf(&self) -> bool {
        &&& 1 <= self.width
        &&& 1 <= self.n_rows
        &&& 1 <= self.window
        &&& self.admitted <= self.n_rows
        &&& self.n_placed <= self.admitted
        &&& self.admitted <= self.n_placed + self.window
        &&& self.placed@.len() == self.n_rows
        &&& self.buf@.len() == 3 * self.width * self.n_rows
        &&& count_trues(self.placed@) == self.n_placed
        &&& forall|i: int| #![trigger self.placed@[i]]
            0 <= i < self.n_rows && self.placed@[i] ==> self.admitted > i
        &&& forall|i: int| #![trigger self.placed@[i]]
            0 <= i < self.n_rows && self.placed@[i] ==> self.rows@.dom().contains(i)
                && self.rows@[i].len() == 3 * self.width && row_seq(
                self.buf@,
                self.width as int,
                i,
            ) == self.rows@[i]
    }

    /// Creates a scheduler for `n_rows` row tasks of `width` pixels each,
    /// with a window of `workers + 1` tasks in flight.
    pub fn new(width: usize, n_rows: usize, workers: usize) -> (s: RowScheduler)
        requires
            1 <= width,
            1 <= n_rows,
            1 <= workers,
            workers < usize::MAX,
            3 * width * n_rows <= usize::MAX,
        ensures
            s.wf(),
            s.width() == width,
            s.n_rows() == n_rows,
            s.window() == workers + 1,
            s.admitted() == 0,
            s.n_placed() == 0,
            forall|i: int| 0 <= i < n_rows ==> !s.placed(i),
    {
        proof {
            assert(3 * width <= 3 * width * n_rows) by (nonlinear_arith)
                requires
                    1 <= n_rows as int,
                    0 <= width as int,
            ;
        }
        let buf: Vec<u8> = vec![0u8; 3 * width * n_rows];
        let placed: Vec<bool> = vec![false; n_rows];
        proof {
            lemma_count_trues_all_false(placed@);
        }
        RowScheduler {
            width,
            n_rows,
            window: workers + 1,
            admitted: 0,
            n_placed: 0,
            placed,
            buf,
            rows: Ghost(Map::empty()),
        }
    }

    /// How many admitted tasks have not yet been placed.
    pub fn in_flight(&self) -> (n: usize)
        requires
            self.wf(),
        ensures
            n == self.admitted() - self.n_placed(),
    {
        self.admitted - self.n_placed
    }

    /// Admits the next pending task into the window: returns its row index, or
    /// `None` when every task is admitted or the window is full.
    pub fn next_task(&mut self) -> (task: Option<usize>)
        requires
            old(self).wf(),
        ensures
            final(self).wf(),
            final(self).width() == old(self).width(),
            final(self).n_rows() == old(self).n_rows(),
            final(self).window() == old(self).window(),
            final(self).n_placed() == old(self).n_placed(),
            final(self).rows() == old(self).rows(),
            forall|i: int| final(self).placed(i) == old(self).placed(i),
            match task {
                Some(i) => {
                    &&& i == old(self).admitted()
                    &&& old(self).admitted() < old(self).n_rows()
                    &&& old(self).admitted() - old(self).n_placed() < old(self).window()
                    &&& final(self).admitted() == old(self).admitted() + 1
                },
                None => {
                    &&& final(self).admitted() == old(self).admitted()
                    &&& (old(self).admitted() == old(self).n_rows() || old(self).admitted() - old(
                        self,
                    ).n_placed() == old(self).window())
                },
            },
    {
        if self.admitted < self.n_rows && self.admitted - self.n_placed < self.window {
            let task = self.admitted;
            self.admitted = self.admitted + 1;
            Some(task)
        } else {
            None
        }
    }

    /// Places the finished row `i` into the buffer at the offset derived
    /// from `i`.
    pub fn complete(&mut self, i: usize, row: &Vec<u8>)
        requires
            old(self).wf(),
            i < old(self).admitted(),
            !old(self).placed(i as int),
            row@.len() == 3 * old(self).width(),
        ensures
            final(self).wf(),
            final(self).width() == old(self).width(),
            final(self).n_rows() == old(self).n_rows(),
            final(self).window() == old(self).window(),
            final(self).admitted() == old(self).admitted(),
            final(self).n_placed() == old(self).n_placed() + 1,
            final(self).placed(i as int),
            forall|j: int|
                0 <= j < old(self).n_rows() && j != i ==> final(self).placed(j) == old(
                    self,
                ).placed(j),
            final(self).rows() == old(self).rows().insert(i as int, row@),
    {
        let n = self.buf.len();
        proof {
            assert(3 * self.width * i + 3 * self.width <= 3 * self.width * self.n_rows && 3
                * self.width <= 3 * self.width * self.n_rows && 3 * self.n_rows <= 3 * self.width
                * self.n_rows) by (nonlinear_arith)
                requires
                    i + 1 <= self.n_rows as int,
                    1 <= self.width as int,
                    1 <= self.n_rows as int,
                    0 <= i,
            ;
        }
        let width = self.width;
        let offset = 3 * width * i;
        let mut k: usize = 0;
        while k < 3 * width
            invariant
                k <= 3 * width,
                width == self.width,
                offset == 3 * self.width * i,
                n == self.buf@.len(),
                offset + 3 * width <= n,
                row@.len() == 3 * width,
                self.buf@.len() == old(self).buf@.len(),
                forall|m: int| 0 <= m < k ==> self.buf@[offset + m] == row@[m],
                forall|m: int|
                    0 <= m < self.buf@.len() && !(offset <= m < offset + 3 * width)
                        ==> self.buf@[m] == old(self).buf@[m],
                self.width == old(self).width,
                self.n_rows == old(self).n_rows,
                self.window == old(self).window,
                self.admitted == old(self).admitted,
                self.n_placed == old(self).n_placed,
                self.placed == old(self).placed,
                self.rows == old(self).rows,
            decreases 3 * width - k,
        {
            let b = row[k];
            self.buf[offset + k] = b;
            k += 1;
        }
        self.placed[i] = true;
        self.n_placed = self.n_placed + 1;
        proof {
            lemma_count_trues_below(old(self).placed@, old(self).admitted as int, i as int);
            lemma_count_trues_update(old(self).placed@, i as int);
            self.rows@ = old(self).rows@.insert(i as int, row@);
            assert(row_seq(self.buf@, self.width as int, i as int) =~= row@);
            assert forall|j: int|
                #![trigger self.placed@[j]]
                0 <= j < self.n_rows && self.placed@[j] && j != i implies self.rows@.dom().contains(
                j,
            ) && self.rows@[j].len() == 3 * self.width && row_seq(self.buf@, self.width as int, j)
                == self.rows@[j] by {
                assert(old(self).placed@[j]);
                assert(3 * self.width * j + 3 * self.width <= 3 * self.width * self.n_rows
                    && (j < i ==> 3 * self.width * j + 3 * self.width <= 3 * self.width * i) && (j
                    > i ==> 3 * self.width * i + 3 * self.width <= 3 * self.width * j))
                    by (nonlinear_arith)
                    requires
                        0 <= j,
                        j + 1 <= self.n_rows as int,
                        0 <= i,
                        0 <= self.width as int,
                        j != i,
                ;
                assert(row_seq(self.buf@, self.width as int, j) =~= row_seq(
                    old(self).buf@,
                    self.width as int,
                    j,
                ));
            }
        }
    }

    /// Whether every row task has been placed.
    pub fn is_done(&self) -> (d: bool)
        requires
            self.wf(),
        ensures
            d == (self.n_placed() == self.n_rows()),
            d ==> self.done(),
    {
        proof {
            if self.n_placed == self.n_rows {
                lemma_count_trues_full(self.placed@);
            }
        }
        self.n_placed == self.n_rows
    }

    /// Hands the assembled buffer out. Every row of it is the row that was
    /// completed under that index — whatever order the completions arrived
    /// in.
    pub fn into_buffer(self) -> (buf: Vec<u8>)
        requires
            self.wf(),
            self.done(),
        ensures
            buf@.len() == 3 * self.width() * self.n_rows(),
            forall|i: int|
                0 <= i < self.n_rows() ==> #[trigger] row_seq(buf@, self.width(), i)
                    == self.rows()[i],
    {
        proof {
            assert forall|i: int|
                0 <= i < self.n_rows() implies #[trigger] row_seq(self.buf@, self.width(), i)
                == self.rows()[i] by {
                assert(self.placed(i));
                assert(self.placed@[i]);
            }
        }
        self.buf
    }
}

/// A pixel of a row slice is the corresponding pixel of the whole buffer.
proof fn lemma_row_pixel(s: Seq<u8>, width: int, px: int, py: int)
    requires
        0 <= px < width,
        0 <= py,
        3 * width * py + 3 * width <= s.len(),
    ensures
        row_rgb(row_seq(s, width, py), px) == pixel_rgb(s, width, px, py),
{
    assert(3 * width * py + 3 * px == 3 * (py * width + px) && 3 * px + 3 <= 3 * width)
        by (nonlinear_arith)
        requires
            0 <= px < width,
            0 <= py,
    ;
}

/// Renders the raster through the row scheduler: the top half of the rows is
/// partitioned into tasks, each computed row is placed by its index, and the
/// assembled half is mirrored to the full height. The result is pinned by
/// the field alone, so it is byte-identical for every worker budget.
pub fn gms_scheduled<F: EscapeField>(
    field: &F,
    width: usize,
    height: usize,
    workers: usize,
) -> (buf: Vec<u8>)
    requires
        field.wf(),
        2 <= width,
        2 <= height,
        1 <= workers,
        workers < usize::MAX,
        3 * width * height <= usize::MAX,
    ensures
        buffer_sized(buf@, width as int, height as int),
        forall|px: int, py: int|
            in_raster(width as int, height as int, px, py) && py < half_rows(height as int)
                ==> pixel_coloured(buf@, *field, width as int, px, py),
        forall|px: int, py: int|
            in_raster(width as int, height as int, px, py) && py >= half_rows(height as int)
                ==> #[trigger] pixel_rgb(buf@, width as int, px, py) == colour_spec(
                field.count_at(px, height - 1 - py),
                field.max_iterations(),
            ),
        forall|px: int, py: int|
            in_raster(width as int, height as int, px, py) ==> #[trigger] pixel_rgb(
                buf@,
                width as int,
                px,
                py,
            ) == pixel_rgb(buf@, width as int, px, height - 1 - py),
{
    let half = height / 2 + height % 2;
    proof {
        assert(3 * width * half <= 3 * width * height && 3 * width <= 3 * width * half)
            by (nonlinear_arith)
            requires
                1 <= half <= height as int,
                1 <= width as int,
        ;
    }
    let mut scheduler = RowScheduler::new(width, half, workers);
    let mut py: usize = 0;
    while py < half
        invariant
            field.wf(),
            2 <= width,
            1 <= half <= height,
            half == half_rows(height as int),
            3 * width <= usize::MAX,
            py <= half,
            scheduler.wf(),
            scheduler.width() == width,
            scheduler.n_rows() == half,
            scheduler.admitted() == py,
            scheduler.n_placed() == py,
            forall|i: int| 0 <= i < half ==> (scheduler.placed(i) <==> i < py),
            forall|i: int, qx: int|
                0 <= i < py && 0 <= qx < width ==> #[trigger] row_rgb(scheduler.rows()[i], qx)
                    == field_rgb(*field, qx, i),
            forall|i: int| 0 <= i < py ==> #[trigger] scheduler.rows()[i].len() == 3 * width,
        decreases half - py,
    {
        let task = scheduler.next_task();
        match task {
            Some(i) => {
                let row = render_row(field, width, i);
                scheduler.complete(i, &row);
            },
            None => {
                proof {
                    assert(false);
                }
            },
        }
        py += 1;
    }
    proof {
        assert(scheduler.done());
    }
    let ghost sched = scheduler;
    let hbuf = scheduler.into_buffer();
    proof {
        assert(3 * (width as int) * (half as int) == 3 * width * half) by (nonlinear_arith);
        assert forall|px: int, py: int|
            in_raster(width as int, half as int, px, py) implies #[trigger] pixel_rgb(
            hbuf@,
            width as int,
            px,
            py,
        ) == field_rgb(*field, px, py) by {
            assert(3 * width * py + 3 * width <= 3 * width * half) by (nonlinear_arith)
                requires
                    0 <= py,
                    py + 1 <= half as int,
                    0 <= width,
            ;
            lemma_row_pixel(hbuf@, width as int, px, py);
            assert(row_seq(hbuf@, width as int, py) == sched.rows()[py]);
            assert(row_rgb(sched.rows()[py], px) == field_rgb(*field, px, py));
        }
    }
    let ghost hview = hbuf@;
    let buf = mirror_extend(hbuf, width, height);
    proof {
        let w = width as int;
        let hf = half as int;
        assert(hf == half_rows(height as int));
        assert forall|px: int, py: int|
            in_raster(width as int, height as int, px, py) && py < half_rows(height as int)
                implies pixel_coloured(buf@, *field, width as int, px, py) by {
            assert(pixel_rgb(buf@, w, px, py) == pixel_rgb(hview, w, px, py));
            assert(in_raster(w, hf, px, py));
        }
        assert forall|px: int, py: int|
            in_raster(width as int, height as int, px, py) && py >= half_rows(height as int)
                implies #[trigger] pixel_rgb(buf@, width as int, px, py) == colour_spec(
            field.count_at(px, height - 1 - py),
            field.max_iterations(),
        ) by {
            assert(pixel_rgb(buf@, w, px, py) == pixel_rgb(hview, w, px, height - 1 - py));
            assert(in_raster(w, hf, px, height - 1 - py));
        }
        assert forall|px: int, py: int|
            in_raster(width as int, height as int, px, py) implies #[trigger] pixel_rgb(
            buf@,
            width as int,
            px,
            py,
        ) == pixel_rgb(buf@, width as int, px, height - 1 - py) by {
            let my = height - 1 - py;
            if my == py {
            } else if py < hf {
                assert(my >= hf);
                assert(pixel_rgb(buf@, w, px, py) == pixel_rgb(hview, w, px, py));
                assert(pixel_rgb(buf@, w, px, my) == pixel_rgb(hview, w, px, height - 1 - my));
            } else {
                assert(my < hf);
                assert(pixel_rgb(buf@, w, px, my) == pixel_rgb(hview, w, px, my));
                assert(pixel_rgb(buf@, w, px, py) == pixel_rgb(hview, w, px, height - 1 - py));
            }
        }
    }
    buf
}

/// Scheduling is deterministic: two assembled buffers of the same dimensions
/// whose rows both equal the same row assignment are identical, whatever
/// order the rows were placed in.
pub proof fn lemma_scheduler_determinism(
    a: Seq<u8>,
    b: Seq<u8>,
    rows: Map<int, Seq<u8>>,
    width: int,
    n_rows: int,
)
    requires
        1 <= width,
        1 <= n_rows,
        a.len() == 3 * width * n_rows,
        b.len() == 3 * width * n_rows,
        forall|i: int| 0 <= i < n_rows ==> #[trigger] row_seq(a, width, i) == rows[i],
        forall|i: int| 0 <= i < n_rows ==> #[trigger] row_seq(b, width, i) == rows[i],
    ensures
        a == b,
{
    assert forall|m: int| 0 <= m < a.len() implies a[m] == b[m] by {
        let r = m / (3 * width);
        let o = m % (3 * width);
        vstd::arithmetic::div_mod::lemma_fundamental_div_mod(m, 3 * width);
        vstd::arithmetic::div_mod::lemma_mod_bound(m, 3 * width);
        vstd::arithmetic::div_mod::lemma_div_pos_is_pos(m, 3 * width);
        assert(m == (3 * width) * r + o);
        assert(r < n_rows) by (nonlinear_arith)
            requires
                m < 3 * width * n_rows,
                m == (3 * width) * r + o,
                0 <= o < 3 * width,
                0 <= r,
                1 <= width,
        ;
        assert(3 * width * r + 3 * width <= 3 * width * n_rows) by (nonlinear_arith)
            requires
                r + 1 <= n_rows,
                0 <= width,
        ;
        assert(3 * width * r == (3 * width) * r) by (nonlinear_arith);
        assert(row_seq(a, width, r) == rows[r]);
        assert(row_seq(b, width, r) == rows[r]);
        assert(a[m] == row_seq(a, width, r)[o]);
        assert(b[m] == row_seq(b, width, r)[o]);
    }
    assert(a =~= b);
}

proof fn lemma_count_trues_all_false(s: Seq<bool>)
    requires
        forall|i: int| 0 <= i < s.len() ==> !s[i],
    ensures
        count_trues(s) == 0,
    decreases s.len(),
{
    if s.len() > 0 {
        lemma_count_trues_all_false(s.drop_last());
    }
}

} // verus!
