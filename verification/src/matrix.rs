//! The alignment score matrix: its mathematical definition for the full
//! and the banded variant, magnitude bounds on its cells, and a flat
//! executable grid of `i64` scores.

use vstd::prelude::*;
use crate::scoring::{cell_score, cell_score_spec, max3};
use vstd::math::abs;

verus! {

/// Value of cell `(i, j)` of the full Needleman-Wunsch matrix for the
/// (already folded) sequences `s1` and `s2`: zero at the origin,
/// `i * indel_s` and `j * indel_s` along the two boundaries, and the
/// best of the three neighbour extensions inside.
pub open spec fn grid_score(
    s1: Seq<u8>,
    s2: Seq<u8>,
    match_s: int,
    mismatch_s: int,
    indel_s: int,
    wild: u8,
    i: int,
    j: int,
) -> int
    decreases i + j,
{
    if i <= 0 && j <= 0 {
        0
    } else if i <= 0 {
        j * indel_s
    } else if j <= 0 {
        i * indel_s
    } else {
        max3(
            grid_score(s1, s2, match_s, mismatch_s, indel_s, wild, i - 1, j - 1)
                + cell_score_spec(s1[i - 1], s2[j - 1], match_s, mismatch_s, wild),
            grid_score(s1, s2, match_s, mismatch_s, indel_s, wild, i - 1, j) + indel_s,
            grid_score(s1, s2, match_s, mismatch_s, indel_s, wild, i, j - 1) + indel_s,
        )
    }
}

/// A cell `(i, j)` lies inside the diagonal band of width `k`
/// when its distance from the main diagonal is at most `k / 2`.
pub open spec fn in_band(i: int, j: int, k: int) -> bool {
    abs(i - j) <= k / 2
}

/// The sentinel stored in off-band cells: far enough below every real
/// score to lose every comparison, yet with headroom so that adding an
/// indel penalty to it cannot underflow an `i64`.
pub open spec fn sentinel_val(mismatch_s: int, indel_s: int) -> int {
    i64::MIN + abs(indel_s) + abs(mismatch_s)
}

/// Value of cell `(i, j)` of the banded matrix with band width `k`:
/// boundaries as in the full matrix, the full recurrence inside the
/// band, and the sentinel everywhere else.
pub open spec fn band_cell(
    s1: Seq<u8>,
    s2: Seq<u8>,
    match_s: int,
    mismatch_s: int,
    indel_s: int,
    wild: u8,
    k: int,
    i: int,
    j: int,
) -> int
    decreases i + j,
{
    if i <= 0 && j <= 0 {
        0
    } else if i <= 0 {
        j * indel_s
    } else if j <= 0 {
        i * indel_s
    } else if in_band(i, j, k) {
        max3(
            band_cell(s1, s2, match_s, mismatch_s, indel_s, wild, k, i - 1, j - 1)
                + cell_score_spec(s1[i - 1], s2[j - 1], match_s, mismatch_s, wild),
            band_cell(s1, s2, match_s, mismatch_s, indel_s, wild, k, i - 1, j) + indel_s,
            band_cell(s1, s2, match_s, mismatch_s, indel_s, wild, k, i, j - 1) + indel_s,
        )
    } else {
        sentinel_val(mismatch_s, indel_s)
    }
}

/// The largest magnitude among the three score parameters.
pub open spec fn score_mag(match_s: int, mismatch_s: int, indel_s: int) -> int {
    max3(abs(match_s) as int, abs(mismatch_s) as int, abs(indel_s) as int)
}

/// All three score parameters fit in an `i32`.
pub open spec fn params_i32(match_s: int, mismatch_s: int, indel_s: int) -> bool {
    &&& i32::MIN <= match_s <= i32::MAX
    &&& i32::MIN <= mismatch_s <= i32::MAX
    &&& i32::MIN <= indel_s <= i32::MAX
}

/// Every cell of the full matrix is bounded in magnitude by its
/// distance from the origin times the largest score magnitude.
pub proof fn lemma_grid_bound(
    s1: Seq<u8>,
    s2: Seq<u8>,
    match_s: int,
    mismatch_s: int,
    indel_s: int,
    wild: u8,
    i: int,
    j: int,
)
    requires
        0 <= i,
        0 <= j,
    ensures
        abs(grid_score(s1, s2, match_s, mismatch_s, indel_s, wild, i, j)) <= (i + j) * score_mag(
            match_s,
            mismatch_s,
            indel_s,
        ),
    decreases i + j,
{
    let mag = score_mag(match_s, mismatch_s, indel_s);
    if i == 0 && j == 0 {
    } else if i == 0 {
        lemma_mul_mag_bound(j, indel_s, mag);
    } else if j == 0 {
        lemma_mul_mag_bound(i, indel_s, mag);
    } else {
        lemma_grid_bound(s1, s2, match_s, mismatch_s, indel_s, wild, i - 1, j - 1);
        lemma_grid_bound(s1, s2, match_s, mismatch_s, indel_s, wild, i - 1, j);
        lemma_grid_bound(s1, s2, match_s, mismatch_s, indel_s, wild, i, j - 1);
        assert((i + j - 2) * mag + mag <= (i + j) * mag && (i + j - 1) * mag + mag == (i + j) * mag
            && (i + j) * mag >= 0) by (nonlinear_arith)
            requires
                i >= 1,
                j >= 1,
                mag >= 0,
        ;
    }
}

/// `|n * s| <= n * m` when `|s| <= m` and `n >= 0`.
proof fn lemma_mul_mag_bound(n: int, s: int, m: int)
    requires
        0 <= n,
        abs(s) <= m,
    ensures
        abs(n * s) <= n * m,
{
    assert(abs(n * s) <= n * m) by (nonlinear_arith)
        requires
            0 <= n,
            abs(s) <= m,
    ;
}

/// In the banded matrix, boundary and in-band cells hold real scores
/// bounded as in the full matrix, and every other cell holds the
/// sentinel.
pub proof fn lemma_band_cell_shape(
    s1: Seq<u8>,
    s2: Seq<u8>,
    match_s: int,
    mismatch_s: int,
    indel_s: int,
    wild: u8,
    k: int,
    i: int,
    j: int,
)
    requires
        0 <= i,
        0 <= j,
        params_i32(match_s, mismatch_s, indel_s),
    ensures
        (i == 0 || j == 0 || in_band(i, j, k)) ==> abs(
            band_cell(s1, s2, match_s, mismatch_s, indel_s, wild, k, i, j),
        ) <= (i + j) * score_mag(match_s, mismatch_s, indel_s),
        !(i == 0 || j == 0 || in_band(i, j, k)) ==> band_cell(
            s1,
            s2,
            match_s,
            mismatch_s,
            indel_s,
            wild,
            k,
            i,
            j,
        ) == sentinel_val(mismatch_s, indel_s),
    decreases i + j,
{
    let mag = score_mag(match_s, mismatch_s, indel_s);
    if i == 0 && j == 0 {
    } else if i == 0 {
        lemma_mul_mag_bound(j, indel_s, mag);
    } else if j == 0 {
        lemma_mul_mag_bound(i, indel_s, mag);
    } else if in_band(i, j, k) {
        lemma_band_cell_shape(s1, s2, match_s, mismatch_s, indel_s, wild, k, i - 1, j - 1);
        lemma_band_cell_shape(s1, s2, match_s, mismatch_s, indel_s, wild, k, i - 1, j);
        lemma_band_cell_shape(s1, s2, match_s, mismatch_s, indel_s, wild, k, i, j - 1);
        let diag = band_cell(s1, s2, match_s, mismatch_s, indel_s, wild, k, i - 1, j - 1);
        // The diagonal neighbour of an in-band interior cell is itself a
        // boundary or in-band cell, so it holds a real, bounded score.
        assert(i - 1 == 0 || j - 1 == 0 || in_band(i - 1, j - 1, k));
        assert((i + j - 2) * mag + mag <= (i + j) * mag && (i + j - 1) * mag + mag == (i + j) * mag
            && (i + j) * mag >= (i + j - 2) * mag - mag && 0 <= (i + j - 2) * mag) by (
        nonlinear_arith)
            requires
                i >= 1,
                j >= 1,
                mag >= 0,
        ;
    }
}

/// Distinct in-range coordinates have distinct flat row-major indices.
proof fn lemma_flat_injective(a: int, b: int, i: int, j: int, cols: int)
    requires
        0 <= b < cols,
        0 <= j < cols,
        a != i || b != j,
    ensures
        a * cols + b != i * cols + j,
{
    assert(a * cols + b != i * cols + j) by (nonlinear_arith)
        requires
            0 <= b < cols,
            0 <= j < cols,
            a != i || b != j,
    ;
}

/// An in-range coordinate pair maps to a flat index inside the buffer.
proof fn lemma_flat_in_range(i: int, j: int, rows: int, cols: int)
    requires
        0 <= i < rows,
        0 <= j < cols,
    ensures
        0 <= i * cols + j < rows * cols,
{
    assert(0 <= i * cols + j < rows * cols) by (nonlinear_arith)
        requires
            0 <= i < rows,
            0 <= j < cols,
    ;
}

/// A score grid held as one flat row-major buffer with explicit stride
/// arithmetic.
pub struct ScoreMatrix {
    cells: Vec<i64>,
    rows: usize,
    cols: usize,
}

impl ScoreMatrix {
    /// The buffer covers exactly `rows * cols` cells.
    pub closed spec fn wf(&self) -> bool {
        &&& self.cells@.len() == self.rows * self.cols
        &&& self.rows * self.cols <= usize::MAX
        &&& 1 <= self.rows
        &&& 1 <= self.cols
    }

    pub closed spec fn spec_rows(&self) -> int {
        self.rows as int
    }

    pub closed spec fn spec_cols(&self) -> int {
        self.cols as int
    }

    /// The score stored at row `i`, column `j`, as a mathematical integer.
    pub closed spec fn at(&self, i: int, j: int) -> int {
        self.cells@[i * self.spec_cols() + j] as int
    }

    /// A fresh matrix with every cell set to `fill`.
    pub fn new(rows: usize, cols: usize, fill: i64) -> (m: ScoreMatrix)
        requires
            1 <= rows,
            1 <= cols,
            rows * cols <= usize::MAX,
        ensures
            m.wf(),
            m.spec_rows() == rows,
            m.spec_cols() == cols,
            forall|i: int, j: int|
                0 <= i < rows && 0 <= j < cols ==> #[trigger] m.at(i, j) == fill as int,
    {
        let n = rows * cols;
        let mut cells: Vec<i64> = Vec::with_capacity(n);
        while cells.len() < n
            invariant
                cells@.len() <= n,
                forall|p: int| 0 <= p < cells@.len() ==> cells@[p] == fill,
            decreases n - cells@.len(),
        {
            cells.push(fill);
        }
        let m = ScoreMatrix { cells, rows, cols };
        proof {
            assert forall|i: int, j: int|
                0 <= i < rows && 0 <= j < cols implies #[trigger] m.at(i, j) == fill as int by {
                lemma_flat_in_range(i, j, rows as int, cols as int);
            }
        }
        m
    }

    /// Overwrite every cell with `fill`.
    pub fn reset(&mut self, fill: i64)
        requires
            old(self).wf(),
        ensures
            final(self).wf(),
            final(self).spec_rows() == old(self).spec_rows(),
            final(self).spec_cols() == old(self).spec_cols(),
            forall|i: int, j: int|
                0 <= i < final(self).spec_rows() && 0 <= j < final(self).spec_cols()
                    ==> #[trigger] final(self).at(i, j) == fill as int,
    {
        let n = self.cells.len();
        let mut p: usize = 0;
        while p < n
            invariant
                self.wf(),
                self.rows == old(self).rows,
                self.cols == old(self).cols,
                n == self.cells@.len(),
                p <= n,
                forall|q: int| 0 <= q < p ==> self.cells@[q] == fill,
            decreases n - p,
        {
            self.cells[p] = fill;
            p = p + 1;
        }
        proof {
            assert forall|i: int, j: int|
                0 <= i < self.spec_rows() && 0 <= j < self.spec_cols() implies #[trigger] self.at(
                i,
                j,
            ) == fill as int by {
                lemma_flat_in_range(i, j, self.spec_rows(), self.spec_cols());
            }
        }
    }

    /// Read the score at `(i, j)`.
    pub fn get(&self, i: usize, j: usize) -> (r: i64)
        requires
            self.wf(),
            i < self.spec_rows(),
            j < self.spec_cols(),
        ensures
            r as int == self.at(i as int, j as int),
    {
        proof {
            lemma_flat_in_range(i as int, j as int, self.spec_rows(), self.spec_cols());
        }
        self.cells[i * self.cols + j]
    }

    pub fn num_rows(&self) -> (r: usize)
        ensures
            r as int == self.spec_rows(),
    {
        self.rows
    }

    pub fn num_cols(&self) -> (r: usize)
        ensures
            r as int == self.spec_cols(),
    {
        self.cols
    }

    /// Store `v` at `(i, j)`, leaving every other cell unchanged.
    pub fn set(&mut self, i: usize, j: usize, v: i64)
        requires
            old(self).wf(),
            i < old(self).spec_rows(),
            j < old(self).spec_cols(),
        ensures
            final(self).wf(),
            final(self).spec_rows() == old(self).spec_rows(),
            final(self).spec_cols() == old(self).spec_cols(),
            final(self).at(i as int, j as int) == v as int,
            forall|a: int, b: int|
                0 <= a < old(self).spec_rows() && 0 <= b < old(self).spec_cols() && (a != i || b
                    != j) ==> #[trigger] final(self).at(a, b) == old(self).at(a, b),
    {
        proof {
            lemma_flat_in_range(i as int, j as int, self.spec_rows(), self.spec_cols());
        }
        self.cells[i * self.cols + j] = v;
        proof {
            assert forall|a: int, b: int|
                0 <= a < self.spec_rows() && 0 <= b < self.spec_cols() && (a != i || b != j)
                    implies #[trigger] self.at(a, b) == old(self).at(a, b) by {
                lemma_flat_in_range(a, b, self.spec_rows(), self.spec_cols());
                lemma_flat_injective(a, b, i as int, j as int, self.spec_cols());
            }
        }
    }
}

/// `a * indel_s` computed in `i64`.
fn boundary_val(a: usize, indel_s: i32) -> (r: i64)
    requires
        a <= 0x8000_0000,
    ensures
        r as int == a * (indel_s as int),
{
    proof {
        assert(-0x4000_0000_0000_0000 <= (a as int) * (indel_s as int)
            <= 0x4000_0000_0000_0000) by (nonlinear_arith)
            requires
                0 <= (a as int) <= 0x8000_0000,
                -0x8000_0000 <= (indel_s as int) < 0x8000_0000,
        ;
    }
    (a as i64) * (indel_s as i64)
}

/// Write the boundary row and column (`(i, 0) = i * indel_s`,
/// `(0, j) = j * indel_s`), leaving interior cells untouched.
fn fill_boundary(m: &mut ScoreMatrix, indel_s: i32)
    requires
        old(m).wf(),
        old(m).spec_rows() <= 0x8000_0001,
        old(m).spec_cols() <= 0x8000_0001,
    ensures
        final(m).wf(),
        final(m).spec_rows() == old(m).spec_rows(),
        final(m).spec_cols() == old(m).spec_cols(),
        forall|a: int|
            0 <= a < final(m).spec_rows() ==> #[trigger] final(m).at(a, 0) == a * (indel_s as int),
        forall|b: int|
            0 <= b < final(m).spec_cols() ==> #[trigger] final(m).at(0, b) == b * (indel_s as int),
        forall|a: int, b: int|
            1 <= a < final(m).spec_rows() && 1 <= b < final(m).spec_cols()
                ==> #[trigger] final(m).at(a, b) == old(m).at(a, b),
{
    let rows = m.num_rows();
    let cols = m.num_cols();
    m.set(0, 0, 0);
    let mut a: usize = 1;
    while a < rows
        invariant
            m.wf(),
            m.spec_rows() == old(m).spec_rows(),
            m.spec_cols() == old(m).spec_cols(),
            rows == m.spec_rows(),
            cols == m.spec_cols(),
            rows <= 0x8000_0001,
            1 <= a <= rows,
            m.at(0, 0) == 0,
            forall|c: int| 1 <= c < a ==> #[trigger] m.at(c, 0) == c * (indel_s as int),
            forall|x: int, y: int|
                0 <= x < rows && 1 <= y < cols ==> #[trigger] m.at(x, y) == old(m).at(x, y),
        decreases rows - a,
    {
        m.set(a, 0, boundary_val(a, indel_s));
        a = a + 1;
    }
    let mut b: usize = 1;
    while b < cols
        invariant
            m.wf(),
            m.spec_rows() == old(m).spec_rows(),
            m.spec_cols() == old(m).spec_cols(),
            rows == m.spec_rows(),
            cols == m.spec_cols(),
            cols <= 0x8000_0001,
            1 <= b <= cols,
            m.at(0, 0) == 0,
            forall|c: int| 1 <= c < rows ==> #[trigger] m.at(c, 0) == c * (indel_s as int),
            forall|y: int| 1 <= y < b ==> #[trigger] m.at(0, y) == y * (indel_s as int),
            forall|x: int, y: int|
                1 <= x < rows && 1 <= y < cols ==> #[trigger] m.at(x, y) == old(m).at(x, y),
        decreases cols - b,
    {
        m.set(0, b, boundary_val(b, indel_s));
        b = b + 1;
    }
}

/// The lengths of the two sequences are small enough that every matrix
/// cell and every candidate sum fits comfortably in an `i64`, and that
/// the matrix itself can be addressed.
pub open spec fn lens_ok(n: int, m: int) -> bool {
    &&& n + m <= 0x7FFF_FFFF
    &&& (n + 1) * (m + 1) <= usize::MAX
}

/// Magnitude bound used to discharge overflow obligations on candidate
/// sums: a real cell plus one more score step stays below `2^62`.
proof fn lemma_cand_in_range(t: int, mag: int)
    requires
        0 <= t <= 0x7FFF_FFFF,
        0 <= mag <= 0x8000_0000,
    ensures
        t * mag + mag <= 0x4000_0000_0000_0000,
        0 <= t * mag,
{
    assert(t * mag + mag <= 0x4000_0000_0000_0000 && 0 <= t * mag) by (nonlinear_arith)
        requires
            0 <= t <= 0x7FFF_FFFF,
            0 <= mag <= 0x8000_0000,
    ;
}

/// Fill the complete matrix for the folded sequences `s1` and `s2`.
pub fn fill_full(
    m: &mut ScoreMatrix,
    s1: &Vec<u8>,
    s2: &Vec<u8>,
    match_s: i32,
    mismatch_s: i32,
    indel_s: i32,
    wild: u8,
)
    requires
        old(m).wf(),
        old(m).spec_rows() == s1@.len() + 1,
        old(m).spec_cols() == s2@.len() + 1,
        lens_ok(s1@.len() as int, s2@.len() as int),
    ensures
        final(m).wf(),
        final(m).spec_rows() == old(m).spec_rows(),
        final(m).spec_cols() == old(m).spec_cols(),
        forall|i: int, j: int|
            0 <= i < final(m).spec_rows() && 0 <= j < final(m).spec_cols()
                ==> #[trigger] final(m).at(i, j) == grid_score(
                s1@,
                s2@,
                match_s as int,
                mismatch_s as int,
                indel_s as int,
                wild,
                i,
                j,
            ),
{
    let xlen = s1.len() + 1;
    let ylen = s2.len() + 1;
    fill_boundary(m, indel_s);
    let mut i: usize = 1;
    while i < xlen
        invariant
            m.wf(),
            m.spec_rows() == xlen,
            m.spec_cols() == ylen,
            xlen == s1@.len() + 1,
            ylen == s2@.len() + 1,
            lens_ok(s1@.len() as int, s2@.len() as int),
            1 <= i <= xlen,
            forall|a: int, b: int|
                0 <= a < xlen && 0 <= b < ylen && (a == 0 || b == 0 || a < i) ==> #[trigger] m.at(
                    a,
                    b,
                ) == grid_score(
                    s1@,
                    s2@,
                    match_s as int,
                    mismatch_s as int,
                    indel_s as int,
                    wild,
                    a,
                    b,
                ),
        decreases xlen - i,
    {
        let mut j: usize = 1;
        while j < ylen
            invariant
                m.wf(),
                m.spec_rows() == xlen,
                m.spec_cols() == ylen,
                xlen == s1@.len() + 1,
                ylen == s2@.len() + 1,
                lens_ok(s1@.len() as int, s2@.len() as int),
                1 <= i < xlen,
                1 <= j <= ylen,
                forall|a: int, b: int|
                    0 <= a < xlen && 0 <= b < ylen && (a == 0 || b == 0 || a < i) ==> #[trigger] m.at(
                        a,
                        b,
                    ) == grid_score(
                        s1@,
                        s2@,
                        match_s as int,
                        mismatch_s as int,
                        indel_s as int,
                        wild,
                        a,
                        b,
                    ),
                forall|b: int|
                    1 <= b < j ==> #[trigger] m.at(i as int, b) == grid_score(
                        s1@,
                        s2@,
                        match_s as int,
                        mismatch_s as int,
                        indel_s as int,
                        wild,
                        i as int,
                        b,
                    ),
            decreases ylen - j,
        {
            let diag = m.get(i - 1, j - 1);
            let up = m.get(i - 1, j);
            let left = m.get(i, j - 1);
            let sc = cell_score(s1[i - 1], s2[j - 1], match_s, mismatch_s, wild);
            proof {
                lemma_grid_bound(
                    s1@,
                    s2@,
                    match_s as int,
                    mismatch_s as int,
                    indel_s as int,
                    wild,
                    i - 1 as int,
                    j - 1 as int,
                );
                lemma_grid_bound(
                    s1@,
                    s2@,
                    match_s as int,
                    mismatch_s as int,
                    indel_s as int,
                    wild,
                    i - 1 as int,
                    j as int,
                );
                lemma_grid_bound(
                    s1@,
                    s2@,
                    match_s as int,
                    mismatch_s as int,
                    indel_s as int,
                    wild,
                    i as int,
                    j - 1 as int,
                );
                let mag = score_mag(match_s as int, mismatch_s as int, indel_s as int);
                lemma_cand_in_range(i + j - 2 as int, mag);
                lemma_cand_in_range(i + j - 1 as int, mag);
            }
            let d = diag + sc;
            let u = up + (indel_s as i64);
            let l = left + (indel_s as i64);
            let best = if d >= u && d >= l {
                d
            } else if u >= l {
                u
            } else {
                l
            };
            m.set(i, j, best);
            j = j + 1;
        }
        i = i + 1;
    }
}

/// Fill the banded matrix for band width `k`: off-band interior cells
/// keep the sentinel, every other cell follows the recurrence.
pub fn fill_banded(
    m: &mut ScoreMatrix,
    s1: &Vec<u8>,
    s2: &Vec<u8>,
    match_s: i32,
    mismatch_s: i32,
    indel_s: i32,
    wild: u8,
    k: usize,
)
    requires
        old(m).wf(),
        old(m).spec_rows() == s1@.len() + 1,
        old(m).spec_cols() == s2@.len() + 1,
        lens_ok(s1@.len() as int, s2@.len() as int),
        1 <= k,
    ensures
        final(m).wf(),
        final(m).spec_rows() == old(m).spec_rows(),
        final(m).spec_cols() == old(m).spec_cols(),
        forall|i: int, j: int|
            0 <= i < final(m).spec_rows() && 0 <= j < final(m).spec_cols()
                ==> #[trigger] final(m).at(i, j) == band_cell(
                s1@,
                s2@,
                match_s as int,
                mismatch_s as int,
                indel_s as int,
                wild,
                k as int,
                i,
                j,
            ),
{
    let xlen = s1.len() + 1;
    let ylen = s2.len() + 1;
    let ia: i64 = if indel_s < 0 {
        -(indel_s as i64)
    } else {
        indel_s as i64
    };
    let ma: i64 = if mismatch_s < 0 {
        -(mismatch_s as i64)
    } else {
        mismatch_s as i64
    };
    let sent: i64 = i64::MIN + ia + ma;
    assert(sent as int == sentinel_val(mismatch_s as int, indel_s as int));
    m.reset(sent);
    fill_boundary(m, indel_s);
    let kk = k / 2;
    let mut i: usize = 1;
    while i < xlen
        invariant
            m.wf(),
            m.spec_rows() == xlen,
            m.spec_cols() == ylen,
            xlen == s1@.len() + 1,
            ylen == s2@.len() + 1,
            lens_ok(s1@.len() as int, s2@.len() as int),
            1 <= k,
            kk == k / 2,
            1 <= i <= xlen,
            forall|a: int, b: int|
                0 <= a < xlen && 0 <= b < ylen && (a == 0 || b == 0 || a < i) ==> #[trigger] m.at(
                    a,
                    b,
                ) == band_cell(
                    s1@,
                    s2@,
                    match_s as int,
                    mismatch_s as int,
                    indel_s as int,
                    wild,
                    k as int,
                    a,
                    b,
                ),
            forall|a: int, b: int|
                1 <= a < xlen && 1 <= b < ylen && a >= i ==> #[trigger] m.at(a, b) == sentinel_val(
                    mismatch_s as int,
                    indel_s as int,
                ),
        decreases xlen - i,
    {
        let mut j: usize = 1;
        while j < ylen
            invariant
                m.wf(),
                m.spec_rows() == xlen,
                m.spec_cols() == ylen,
                xlen == s1@.len() + 1,
                ylen == s2@.len() + 1,
                lens_ok(s1@.len() as int, s2@.len() as int),
                1 <= k,
                kk == k / 2,
                1 <= i < xlen,
                1 <= j <= ylen,
                forall|a: int, b: int|
                    0 <= a < xlen && 0 <= b < ylen && (a == 0 || b == 0 || a < i || (a == i && b
                        < j)) ==> #[trigger] m.at(a, b) == band_cell(
                        s1@,
                        s2@,
                        match_s as int,
                        mismatch_s as int,
                        indel_s as int,
                        wild,
                        k as int,
                        a,
                        b,
                    ),
                forall|a: int, b: int|
                    1 <= a < xlen && 1 <= b < ylen && (a > i || (a == i && b >= j))
                        ==> #[trigger] m.at(a, b) == sentinel_val(
                        mismatch_s as int,
                        indel_s as int,
                    ),
            decreases ylen - j,
        {
            let inb = if i >= j {
                i - j <= kk
            } else {
                j - i <= kk
            };
            if inb {
                let diag = m.get(i - 1, j - 1);
                let up = m.get(i - 1, j);
                let left = m.get(i, j - 1);
                let sc = cell_score(s1[i - 1], s2[j - 1], match_s, mismatch_s, wild);
                proof {
                    let mag = score_mag(match_s as int, mismatch_s as int, indel_s as int);
                    lemma_band_cell_shape(
                        s1@,
                        s2@,
                        match_s as int,
                        mismatch_s as int,
                        indel_s as int,
                        wild,
                        k as int,
                        i - 1 as int,
                        j - 1 as int,
                    );
                    lemma_band_cell_shape(
                        s1@,
                        s2@,
                        match_s as int,
                        mismatch_s as int,
                        indel_s as int,
                        wild,
                        k as int,
                        i - 1 as int,
                        j as int,
                    );
                    lemma_band_cell_shape(
                        s1@,
                        s2@,
                        match_s as int,
                        mismatch_s as int,
                        indel_s as int,
                        wild,
                        k as int,
                        i as int,
                        j - 1 as int,
                    );
                    lemma_cand_in_range(i + j - 2 as int, mag);
                    lemma_cand_in_range(i + j - 1 as int, mag);
                    // The diagonal neighbour is a boundary or in-band cell,
                    // so it holds a real score, never the sentinel.
                    assert(i - 1 == 0 || j - 1 == 0 || in_band(i - 1 as int, j - 1 as int, k as int));
                }
                let d = diag + sc;
                let u = up + (indel_s as i64);
                let l = left + (indel_s as i64);
                let best = if d >= u && d >= l {
                    d
                } else if u >= l {
                    u
                } else {
                    l
                };
                m.set(i, j, best);
            }
            j = j + 1;
        }
        i = i + 1;
    }
}

} // verus!
