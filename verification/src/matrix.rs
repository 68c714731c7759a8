//! Dense row-major matrices of machine words, with matrix-vector and
//! matrix-matrix products over the ciphertext modulus `q = 2^32`.
//! Intermediate products are accumulated in 128-bit arithmetic and reduced
//! once at the end; because `q` divides `2^64`, no precision is lost.

use vstd::prelude::*;

use crate::linalg::{column, dot_to, int_rows, ints, lemma_dot_bound};
use crate::params::{CIPHER_MOD, PirError};

verus! {

/// The rows of a vector of word vectors, as a sequence of sequences.
pub open spec fn rows_of(data: Seq<Vec<u64>>) -> Seq<Seq<u64>> {
    Seq::new(data.len(), |i: int| data[i]@)
}

/// A dense row-major matrix of unsigned words.
pub struct Matrix {
    /// The rows; every row has length `ncols`.
    pub data: Vec<Vec<u64>>,
    /// Number of rows.
    pub nrows: usize,
    /// Number of columns.
    pub ncols: usize,
}

impl View for Matrix {
    type V = Seq<Seq<u64>>;

    open spec fn view(&self) -> Seq<Seq<u64>> {
        rows_of(self.data@)
    }
}

impl Matrix {
    /// Shape well-formedness: the stored dimensions describe the data and
    /// the matrix is rectangular.
    pub open spec fn wf(self) -> bool {
        &&& self@.len() == self.nrows
        &&& forall|j: int| 0 <= j < self.nrows ==> (#[trigger] self@[j]).len() == self.ncols
    }

    /// Every entry lies below `bound`.
    pub open spec fn bounded(self, bound: u64) -> bool {
        forall|j: int, l: int|
            0 <= j < self@.len() && 0 <= l < self@[j].len() ==> #[trigger] self@[j][l] < bound
    }

    /// Wraps row data as a matrix, rejecting ragged input with a dimension
    /// error. An empty row list is the 0 x 0 matrix.
    pub fn from_data(data: Vec<Vec<u64>>) -> (r: Result<Matrix, PirError>)
        ensures
            match r {
                Ok(m) => m.wf() && m@ == rows_of(data@) && m.nrows == data@.len()
                    && (data@.len() > 0 ==> m.ncols == rows_of(data@)[0].len()),
                Err(e) => {
                    &&& e == PirError::DimensionMismatch
                    &&& exists|j: int|
                        0 <= j < data@.len() && (#[trigger] rows_of(data@)[j]).len()
                            != rows_of(data@)[0].len()
                },
            },
    {
        let nrows = data.len();
        let ncols = if nrows == 0 {
            0
        } else {
            data[0].len()
        };
        let mut j: usize = 0;
        while j < nrows
            invariant
                j <= nrows,
                nrows == data@.len(),
                nrows > 0 ==> ncols == data@[0]@.len(),
                nrows == 0 ==> ncols == 0,
                forall|t: int| #![trigger data@[t]] 0 <= t < j ==> data@[t]@.len() == ncols,
            decreases nrows - j,
        {
            if data[j].len() != ncols {
                proof {
                    assert(rows_of(data@)[j as int].len() != rows_of(data@)[0].len());
                }
                return Err(PirError::DimensionMismatch);
            }
            j += 1;
        }
        Ok(Matrix { data, nrows, ncols })
    }

    /// The all-zero square matrix of the given side length.
    pub fn zeros(side: usize) -> (r: Matrix)
        ensures
            r.wf(),
            r.nrows == side,
            r.ncols == side,
            forall|j: int, l: int| 0 <= j < side && 0 <= l < side ==> #[trigger] r@[j][l] == 0,
    {
        let mut data: Vec<Vec<u64>> = Vec::new();
        let mut j: usize = 0;
        while j < side
            invariant
                j <= side,
                data@.len() == j,
                forall|t: int| #![trigger data@[t]] 0 <= t < j ==> data@[t]@.len() == side,
                forall|t: int, l: int|
                    #![trigger data@[t]@[l]]
                    0 <= t < j && 0 <= l < side ==> data@[t]@[l] == 0,
            decreases side - j,
        {
            let mut row: Vec<u64> = Vec::new();
            let mut l: usize = 0;
            while l < side
                invariant
                    l <= side,
                    row@.len() == l,
                    forall|t: int| 0 <= t < l ==> #[trigger] row@[t] == 0,
                decreases side - l,
            {
                row.push(0);
                l += 1;
            }
            data.push(row);
            j += 1;
        }
        Matrix { data, nrows: side, ncols: side }
    }

    /// The transpose.
    pub fn transpose(&self) -> (r: Matrix)
        requires
            self.wf(),
        ensures
            r.wf(),
            r.nrows == self.ncols,
            r.ncols == self.nrows,
            forall|j: int, l: int|
                0 <= j < self.ncols && 0 <= l < self.nrows ==> #[trigger] r@[j][l] == self@[l][j],
    {
        let mut data: Vec<Vec<u64>> = Vec::new();
        let mut j: usize = 0;
        while j < self.ncols
            invariant
                j <= self.ncols,
                self.wf(),
                data@.len() == j,
                forall|t: int| #![trigger data@[t]] 0 <= t < j ==> data@[t]@.len() == self.nrows,
                forall|t: int, l: int|
                    #![trigger data@[t]@[l]]
                    0 <= t < j && 0 <= l < self.nrows ==> data@[t]@[l] == self@[l][t],
            decreases self.ncols - j,
        {
            let mut row: Vec<u64> = Vec::new();
            let mut l: usize = 0;
            while l < self.nrows
                invariant
                    l <= self.nrows,
                    j < self.ncols,
                    self.wf(),
                    row@.len() == l,
                    forall|t: int| 0 <= t < l ==> #[trigger] row@[t] == self@[t][j as int],
                decreases self.nrows - l,
            {
                proof {
                    assert(self@[l as int].len() == self.ncols);
                    assert(self@[l as int] == self.data@[l as int]@);
                }
                row.push(self.data[l][j]);
                l += 1;
            }
            data.push(row);
            j += 1;
        }
        Matrix { data, nrows: self.ncols, ncols: self.nrows }
    }

    /// The matrix-vector product modulo `q`: coordinate `j` of the result is
    /// the dot product of row `j` with `v`, reduced modulo `q`.
    pub fn mul_vec_mod(&self, v: &Vec<u64>) -> (r: Vec<u64>)
        requires
            self.wf(),
            self.bounded(CIPHER_MOD),
            v@.len() == self.ncols,
            forall|t: int| 0 <= t < v@.len() ==> #[trigger] v@[t] < CIPHER_MOD,
        ensures
            r@.len() == self.nrows,
            forall|j: int|
                0 <= j < self.nrows
                    ==> #[trigger] r@[j]
                        == dot_to(ints(self@[j]), ints(v@), self.ncols as int)
                            % (CIPHER_MOD as int),
            forall|j: int| 0 <= j < r@.len() ==> #[trigger] r@[j] < CIPHER_MOD,
    {
        let mut out: Vec<u64> = Vec::new();
        let mut j: usize = 0;
        while j < self.nrows
            invariant
                j <= self.nrows,
                self.wf(),
                self.bounded(CIPHER_MOD),
                v@.len() == self.ncols,
                forall|t: int| 0 <= t < v@.len() ==> #[trigger] v@[t] < CIPHER_MOD,
                out@.len() == j,
                forall|t: int|
                    0 <= t < j
                        ==> #[trigger] out@[t]
                            == dot_to(ints(self@[t]), ints(v@), self.ncols as int)
                                % (CIPHER_MOD as int),
                forall|t: int| 0 <= t < out@.len() ==> #[trigger] out@[t] < CIPHER_MOD,
            decreases self.nrows - j,
        {
            proof {
                assert(self@[j as int].len() == self.ncols);
                assert(self@[j as int] == self.data@[j as int]@);
            }
            let c = row_dot_mod(&self.data[j], v, self.ncols);
            out.push(c);
            j += 1;
        }
        out
    }

    /// The matrix-matrix product modulo `q`: entry `(j, l)` of the result is
    /// the dot product of row `j` of `self` with column `l` of `other`,
    /// reduced modulo `q`.
    pub fn mul_mat_mod(&self, other: &Matrix) -> (r: Matrix)
        requires
            self.wf(),
            other.wf(),
            self.bounded(CIPHER_MOD),
            other.bounded(CIPHER_MOD),
            self.ncols == other.nrows,
        ensures
            r.wf(),
            r.nrows == self.nrows,
            r.ncols == other.ncols,
            r.bounded(CIPHER_MOD),
            forall|j: int, l: int|
                0 <= j < self.nrows && 0 <= l < other.ncols
                    ==> #[trigger] r@[j][l]
                        == dot_to(ints(self@[j]), column(int_rows(other@), l), self.ncols as int)
                            % (CIPHER_MOD as int),
    {
        let mut data: Vec<Vec<u64>> = Vec::new();
        let mut j: usize = 0;
        while j < self.nrows
            invariant
                j <= self.nrows,
                self.wf(),
                other.wf(),
                self.bounded(CIPHER_MOD),
                other.bounded(CIPHER_MOD),
                self.ncols == other.nrows,
                data@.len() == j,
                forall|t: int| #![trigger data@[t]] 0 <= t < j ==> data@[t]@.len() == other.ncols,
                forall|t: int, l: int|
                    #![trigger data@[t]@[l]]
                    0 <= t < j && 0 <= l < other.ncols
                        ==> data@[t]@[l]
                            == dot_to(
                                ints(self@[t]),
                                column(int_rows(other@), l),
                                self.ncols as int,
                            ) % (CIPHER_MOD as int),
                forall|t: int, l: int|
                    #![trigger data@[t]@[l]]
                    0 <= t < j && 0 <= l < other.ncols ==> data@[t]@[l] < CIPHER_MOD,
            decreases self.nrows - j,
        {
            let mut row: Vec<u64> = Vec::new();
            let mut l: usize = 0;
            while l < other.ncols
                invariant
                    l <= other.ncols,
                    j < self.nrows,
                    self.wf(),
                    other.wf(),
                    self.bounded(CIPHER_MOD),
                    other.bounded(CIPHER_MOD),
                    self.ncols == other.nrows,
                    row@.len() == l,
                    forall|t: int|
                        0 <= t < l
                            ==> #[trigger] row@[t]
                                == dot_to(
                                    ints(self@[j as int]),
                                    column(int_rows(other@), t),
                                    self.ncols as int,
                                ) % (CIPHER_MOD as int),
                    forall|t: int| 0 <= t < l ==> #[trigger] row@[t] < CIPHER_MOD,
                decreases other.ncols - l,
            {
                proof {
                    assert(self@[j as int].len() == self.ncols);
                    assert(self@[j as int] == self.data@[j as int]@);
                }
                let c = col_dot_mod(&self.data[j], other, l);
                row.push(c);
                l += 1;
            }
            data.push(row);
            j += 1;
        }
        Matrix { data, nrows: self.nrows, ncols: other.ncols }
    }
}

/// Dot product of two word vectors over the first `k` coordinates, reduced
/// modulo `q`. The exact sum is tracked in 128-bit arithmetic.
pub fn row_dot_mod(a: &Vec<u64>, b: &Vec<u64>, k: usize) -> (r: u64)
    requires
        k <= a@.len(),
        k <= b@.len(),
        forall|t: int| 0 <= t < a@.len() ==> #[trigger] a@[t] < CIPHER_MOD,
        forall|t: int| 0 <= t < b@.len() ==> #[trigger] b@[t] < CIPHER_MOD,
    ensures
        r == dot_to(ints(a@), ints(b@), k as int) % (CIPHER_MOD as int),
        r < CIPHER_MOD,
{
    let mut acc: u128 = 0;
    let mut t: usize = 0;
    while t < k
        invariant
            t <= k,
            k <= a@.len(),
            k <= b@.len(),
            forall|i: int| 0 <= i < a@.len() ==> #[trigger] a@[i] < CIPHER_MOD,
            forall|i: int| 0 <= i < b@.len() ==> #[trigger] b@[i] < CIPHER_MOD,
            acc == dot_to(ints(a@), ints(b@), t as int),
            acc <= (t as int) * ((CIPHER_MOD - 1) as int) * ((CIPHER_MOD - 1) as int),
        decreases k - t,
    {
        proof {
            lemma_dot_bound(
                ints(a@),
                ints(b@),
                (t + 1) as int,
                (CIPHER_MOD - 1) as int,
                (CIPHER_MOD - 1) as int,
            );
            assert(((t + 1) as int) * ((CIPHER_MOD - 1) as int) * ((CIPHER_MOD - 1) as int)
                < u128::MAX) by (nonlinear_arith)
                requires
                    0 <= t < u64::MAX,
            ;
        }
        acc = acc + (a[t] as u128) * (b[t] as u128);
        t += 1;
    }
    (acc % (CIPHER_MOD as u128)) as u64
}

/// Dot product of a row with column `l` of a matrix, over the first
/// `m.nrows` coordinates, reduced modulo `q`.
fn col_dot_mod(a: &Vec<u64>, m: &Matrix, l: usize) -> (r: u64)
    requires
        m.wf(),
        m.bounded(CIPHER_MOD),
        m.nrows <= a@.len(),
        l < m.ncols,
        forall|t: int| 0 <= t < a@.len() ==> #[trigger] a@[t] < CIPHER_MOD,
    ensures
        r == dot_to(ints(a@), column(int_rows(m@), l as int), m.nrows as int)
            % (CIPHER_MOD as int),
        r < CIPHER_MOD,
{
    let ghost col = column(int_rows(m@), l as int);
    let mut acc: u128 = 0;
    let mut t: usize = 0;
    while t < m.nrows
        invariant
            t <= m.nrows,
            m.wf(),
            m.bounded(CIPHER_MOD),
            m.nrows <= a@.len(),
            l < m.ncols,
            forall|i: int| 0 <= i < a@.len() ==> #[trigger] a@[i] < CIPHER_MOD,
            col == column(int_rows(m@), l as int),
            acc == dot_to(ints(a@), col, t as int),
            acc <= (t as int) * ((CIPHER_MOD - 1) as int) * ((CIPHER_MOD - 1) as int),
        decreases m.nrows - t,
    {
        proof {
            assert(m@[t as int].len() == m.ncols);
            assert(m@[t as int] == m.data@[t as int]@);
            assert(int_rows(m@)[t as int] == ints(m@[t as int]));
            assert(col[t as int] == m@[t as int][l as int]);
            assert(0 <= col[t as int] < CIPHER_MOD);
            lemma_dot_bound(
                ints(a@),
                col,
                (t + 1) as int,
                (CIPHER_MOD - 1) as int,
                (CIPHER_MOD - 1) as int,
            );
            assert(((t + 1) as int) * ((CIPHER_MOD - 1) as int) * ((CIPHER_MOD - 1) as int)
                < u128::MAX) by (nonlinear_arith)
                requires
                    0 <= t < u64::MAX,
            ;
        }
        acc = acc + (a[t] as u128) * (m.data[t][l] as u128);
        t += 1;
    }
    (acc % (CIPHER_MOD as u128)) as u64
}

} // verus!
