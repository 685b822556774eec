use vstd::prelude::*;

use crate::error::MatrixError;

verus! {

/// Immutable dense matrix: a flat row-major element sequence plus its
/// row and column counts. Well-formedness ties the three together.
pub struct Matrix {
    pub data: Vec<i64>,
    pub rows: usize,
    pub cols: usize,
}

/// Mathematical dot product of two element sequences, folded from the left
/// with the additive identity as the seed.
pub open spec fn dot(a: Seq<i64>, b: Seq<i64>) -> int
    decreases a.len(),
{
    if a.len() == 0 || b.len() == 0 {
        0
    } else {
        dot(a.drop_last(), b.drop_last()) + a.last() * b.last()
    }
}

/// The `k`-th multiply-accumulate step over `a` and `b` stays within `i64`.
pub open spec fn dot_step_fits(a: Seq<i64>, b: Seq<i64>, k: int) -> bool {
    &&& i64::MIN <= a[k] * b[k] <= i64::MAX
    &&& i64::MIN <= dot(a.take(k + 1), b.take(k + 1)) <= i64::MAX
}

/// Every intermediate product and running sum of `dot(a, b)` fits in `i64`,
/// so the left-to-right fold never overflows.
pub open spec fn dot_fits(a: Seq<i64>, b: Seq<i64>) -> bool {
    forall|k: int| 0 <= k < a.len() ==> #[trigger] dot_step_fits(a, b, k)
}

/// Extending both prefixes by one element adds exactly one product term.
pub proof fn lemma_dot_take_step(a: Seq<i64>, b: Seq<i64>, k: int)
    requires
        0 <= k < a.len(),
        a.len() == b.len(),
    ensures
        dot(a.take(k + 1), b.take(k + 1)) == dot(a.take(k), b.take(k)) + a[k] * b[k],
{
    assert(a.take(k + 1).drop_last() =~= a.take(k));
    assert(b.take(k + 1).drop_last() =~= b.take(k));
    assert(a.take(k + 1).last() == a[k]);
    assert(b.take(k + 1).last() == b[k]);
}

impl Matrix {
    /// The element count matches the declared shape.
    pub open spec fn well_formed(self) -> bool {
        self.data@.len() == self.rows * self.cols
    }

    /// Row `i` as a sequence: the contiguous slice starting at `i * cols`.
    pub open spec fn row_seq(self, i: int) -> Seq<i64> {
        self.data@.subrange(i * self.cols, i * self.cols + self.cols)
    }

    /// Column `j` as a sequence: every `cols`-th element starting at `j`.
    pub open spec fn col_seq(self, j: int) -> Seq<i64> {
        Seq::new(self.rows as nat, |k: int| self.data@[k * self.cols + j])
    }

    /// Wraps a flat row-major element vector; the caller guarantees that the
    /// length matches the shape.
    pub fn new(data: Vec<i64>, rows: usize, cols: usize) -> (m: Matrix)
        requires
            data@.len() == rows * cols,
        ensures
            m.data@ == data@,
            m.rows == rows,
            m.cols == cols,
            m.well_formed(),
    {
        Matrix { data, rows, cols }
    }

    /// Copies row `row` out of the matrix.
    pub fn get_row(&self, row: usize) -> (r: Vec<i64>)
        requires
            self.well_formed(),
            row < self.rows,
        ensures
            r@ == self.row_seq(row as int),
            r@.len() == self.cols,
    {
        let _n: usize = self.data.len();
        proof {
            assert(row * self.cols + self.cols <= self.rows * self.cols) by (nonlinear_arith)
                requires row < self.rows;
        }
        let start = row * self.cols;
        let mut r: Vec<i64> = Vec::new();
        let mut k: usize = 0;
        while k < self.cols
            invariant
                self.well_formed(),
                self.data@.len() <= usize::MAX,
                row < self.rows,
                start == row * self.cols,
                start + self.cols <= self.data@.len(),
                k <= self.cols,
                r@.len() == k,
                forall|m: int| 0 <= m < k ==> r@[m] == self.data@[start + m],
            decreases self.cols - k,
        {
            r.push(self.data[start + k]);
            k = k + 1;
        }
        proof {
            assert(r@ =~= self.row_seq(row as int));
        }
        r
    }

    /// Copies column `col` out of the matrix.
    pub fn get_col(&self, col: usize) -> (r: Vec<i64>)
        requires
            self.well_formed(),
            col < self.cols,
        ensures
            r@ == self.col_seq(col as int),
            r@.len() == self.rows,
    {
        let _n: usize = self.data.len();
        let mut r: Vec<i64> = Vec::new();
        let mut i: usize = 0;
        while i < self.rows
            invariant
                self.well_formed(),
                self.data@.len() <= usize::MAX,
                col < self.cols,
                i <= self.rows,
                r@.len() == i,
                forall|m: int| 0 <= m < i ==> r@[m] == self.data@[m * self.cols + col],
            decreases self.rows - i,
        {
            proof {
                assert(i * self.cols + col < self.rows * self.cols) by (nonlinear_arith)
                    requires i < self.rows, col < self.cols;
            }
            r.push(self.data[i * self.cols + col]);
            i = i + 1;
        }
        proof {
            assert(r@ =~= self.col_seq(col as int));
        }
        r
    }

    /// Sequential multiplication: computes every output cell in row-major
    /// order on the calling thread.
    pub fn multiply(&self, rhs: &Matrix) -> (r: Result<Matrix, MatrixError>)
        requires
            self.well_formed(),
            rhs.well_formed(),
            compatible(*self, *rhs) ==> self.rows * rhs.cols <= usize::MAX,
            compatible(*self, *rhs) ==> products_fit(*self, *rhs),
        ensures
            multiply_outcome(*self, *rhs, r),
    {
        if self.rows != rhs.cols || self.cols != rhs.rows {
            return Err(MatrixError::DimensionMismatch);
        }
        let mut out: Vec<i64> = Vec::new();
        let mut i: usize = 0;
        while i < self.rows
            invariant
                self.well_formed(),
                rhs.well_formed(),
                compatible(*self, *rhs),
                self.rows * rhs.cols <= usize::MAX,
                products_fit(*self, *rhs),
                i <= self.rows,
                out@.len() == i * rhs.cols,
                forall|k: int| 0 <= k < out@.len() ==> #[trigger] out@[k] == product_cell(
                    *self,
                    *rhs,
                    k,
                ),
            decreases self.rows - i,
        {
            let mut j: usize = 0;
            while j < rhs.cols
                invariant
                    self.well_formed(),
                    rhs.well_formed(),
                    compatible(*self, *rhs),
                    self.rows * rhs.cols <= usize::MAX,
                    products_fit(*self, *rhs),
                    i < self.rows,
                    j <= rhs.cols,
                    out@.len() == i * rhs.cols + j,
                    forall|k: int| 0 <= k < out@.len() ==> #[trigger] out@[k] == product_cell(
                        *self,
                        *rhs,
                        k,
                    ),
                decreases rhs.cols - j,
            {
                let row = self.get_row(i);
                let col = rhs.get_col(j);
                let v = match matrix_mul(&row, &col) {
                    Ok(v) => v,
                    Err(e) => {
                        proof {
                            assert(false);
                        }
                        return Err(e);
                    },
                };
                proof {
                    vstd::arithmetic::div_mod::lemma_fundamental_div_mod_converse(
                        i * rhs.cols + j,
                        rhs.cols as int,
                        i as int,
                        j as int,
                    );
                }
                out.push(v);
                j = j + 1;
            }
            proof {
                assert((i + 1) * rhs.cols == i * rhs.cols + rhs.cols) by (nonlinear_arith);
            }
            i = i + 1;
        }
        Ok(Matrix::new(out, self.rows, rhs.cols))
    }
}

/// The shape rule of the engine: the cross dimensions must match both ways.
/// This is stricter than ordinary matrix multiplication on purpose, for
/// parity with the operator it models.
pub open spec fn compatible(a: Matrix, b: Matrix) -> bool {
    a.rows == b.cols && a.cols == b.rows
}

/// Value of output cell `k` (row-major) of the product of `a` and `b`.
pub open spec fn product_cell(a: Matrix, b: Matrix, k: int) -> int {
    dot(a.row_seq(k / (b.cols as int)), b.col_seq(k % (b.cols as int)))
}

/// Every output cell's multiply-accumulate fold stays within `i64`.
pub open spec fn products_fit(a: Matrix, b: Matrix) -> bool {
    forall|i: int, j: int| 0 <= i < a.rows && 0 <= j < b.cols ==> dot_fits(
        #[trigger] a.row_seq(i),
        #[trigger] b.col_seq(j),
    )
}

/// `m` is the product of `a` and `b`: right shape, every cell the dot
/// product of the matching row of `a` and column of `b`.
pub open spec fn is_product(a: Matrix, b: Matrix, m: Matrix) -> bool {
    &&& m.rows == a.rows
    &&& m.cols == b.cols
    &&& m.well_formed()
    &&& forall|k: int| 0 <= k < m.data@.len() ==> #[trigger] m.data@[k] == product_cell(a, b, k)
}

/// The one observable outcome every multiplication path must produce:
/// the product for compatible shapes, `DimensionMismatch` otherwise.
pub open spec fn multiply_outcome(a: Matrix, b: Matrix, r: Result<Matrix, MatrixError>) -> bool {
    if compatible(a, b) {
        r matches Ok(m) && is_product(a, b, m)
    } else {
        r == Err::<Matrix, MatrixError>(MatrixError::DimensionMismatch)
    }
}

/// Law: two 1-by-1 matrices multiply to the scalar product of their single
/// elements, on every path that meets the engine's contract.
pub proof fn lemma_one_by_one_scalar(a: Matrix, b: Matrix, r: Result<Matrix, MatrixError>)
    requires
        a.well_formed(),
        b.well_formed(),
        a.rows == 1 && a.cols == 1,
        b.rows == 1 && b.cols == 1,
        multiply_outcome(a, b, r),
    ensures
        r matches Ok(m) && m.data@.len() == 1 && m.data@[0] == a.data@[0] * b.data@[0],
{
    let m = r->Ok_0;
    let row = a.row_seq(0);
    let col = b.col_seq(0);
    assert(row.len() == 1 && col.len() == 1);
    assert(row[0] == a.data@[0] && col[0] == b.data@[0]);
    assert(row.drop_last().len() == 0);
    assert(dot(row.drop_last(), col.drop_last()) == 0);
    assert(row.last() == row[0] && col.last() == col[0]);
    assert(dot(row, col) == a.data@[0] * b.data@[0]);
    assert(m.data@[0] == product_cell(a, b, 0));
}

/// Dot product of a row and a column; the two must be equally long.
pub fn matrix_mul(a: &Vec<i64>, b: &Vec<i64>) -> (r: Result<i64, MatrixError>)
    requires
        a@.len() == b@.len() ==> dot_fits(a@, b@),
    ensures
        a@.len() == b@.len() ==> (r matches Ok(v) && v == dot(a@, b@)),
        a@.len() != b@.len() ==> r == Err::<i64, MatrixError>(MatrixError::VectorLengthMismatch),
{
    if a.len() != b.len() {
        return Err(MatrixError::VectorLengthMismatch);
    }
    let mut acc: i64 = 0;
    let mut k: usize = 0;
    while k < a.len()
        invariant
            a@.len() == b@.len(),
            k <= a@.len(),
            dot_fits(a@, b@),
            acc == dot(a@.take(k as int), b@.take(k as int)),
        decreases a@.len() - k,
    {
        proof {
            assert(dot_step_fits(a@, b@, k as int));
            lemma_dot_take_step(a@, b@, k as int);
        }
        acc = acc + a[k] * b[k];
        k = k + 1;
    }
    proof {
        assert(a@.take(a@.len() as int) =~= a@);
        assert(b@.take(b@.len() as int) =~= b@);
    }
    Ok(acc)
}

} // verus!

