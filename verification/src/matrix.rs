//! A dense rectangular matrix workload over `i32` entries: element access,
//! scalar and matrix arithmetic, and a Gauss-Jordan elimination pass.

use vstd::prelude::*;

verus! {

/// A `rows x cols` matrix stored in row-major order.
pub struct Matrix {
    rows: usize,
    cols: usize,
    data: Vec<i32>,
}

/// The entry of the row-major sequence `m` (with `cols` columns) at row `r`,
/// column `c`.
pub open spec fn entry(m: Seq<i32>, cols: int, r: int, c: int) -> i32 {
    m[r * cols + c]
}

/// The dot product of row `r` of `m` with the first `k` entries of `v`.
pub open spec fn row_dot(m: Seq<i32>, cols: int, r: int, v: Seq<i32>, k: int) -> int
    decreases k,
{
    if k <= 0 {
        0
    } else {
        row_dot(m, cols, r, v, k - 1) + entry(m, cols, r, k - 1) * v[k - 1]
    }
}

/// The dot product of row `i` of `a` with column `j` of `b`, over the first
/// `k` terms (`a` has `acols` columns, `b` has `bcols`).
pub open spec fn mat_dot(a: Seq<i32>, acols: int, b: Seq<i32>, bcols: int, i: int, j: int, k: int) -> int
    decreases k,
{
    if k <= 0 {
        0
    } else {
        mat_dot(a, acols, b, bcols, i, j, k - 1) + entry(a, acols, i, k - 1) * entry(
            b,
            bcols,
            k - 1,
            j,
        )
    }
}

/// A row-major index stays inside the matrix.
pub proof fn lemma_entry_index(r: int, c: int, rows: int, cols: int)
    requires
        0 <= r < rows,
        0 <= c < cols,
    ensures
        0 <= r * cols + c < rows * cols,
{
    assert(0 <= r * cols + c < rows * cols) by (nonlinear_arith)
        requires
            0 <= r < rows,
            0 <= c < cols,
    ;
}

impl View for Matrix {
    type V = Seq<i32>;

    closed spec fn view(&self) -> Seq<i32> {
        self.data@
    }
}

impl Matrix {
    /// The number of rows.
    pub closed spec fn spec_rows(&self) -> int {
        self.rows as int
    }

    /// The number of columns.
    pub closed spec fn spec_cols(&self) -> int {
        self.cols as int
    }

    /// The storage holds exactly one entry per cell.
    pub open spec fn wf(&self) -> bool {
        self@.len() == self.spec_rows() * self.spec_cols()
    }

    /// A `rows x cols` matrix of zeroes.
    pub fn new(rows: usize, cols: usize) -> (r: Self)
        requires
            rows * cols <= usize::MAX,
        ensures
            r.wf(),
            r.spec_rows() == rows,
            r.spec_cols() == cols,
            forall|k: int| 0 <= k < r@.len() ==> r@[k] == 0i32,
    {
        proof {
            vstd::arithmetic::mul::lemma_mul_is_commutative(rows as int, cols as int);
        }
        let n = rows * cols;
        let mut data: Vec<i32> = Vec::new();
        let mut k: usize = 0;
        while k < n
            invariant
                0 <= k <= n,
                data@.len() == k,
                forall|x: int| 0 <= x < k ==> data@[x] == 0i32,
            decreases n - k,
        {
            data.push(0);
            k = k + 1;
        }
        Matrix { rows, cols, data }
    }

    /// The number of rows.
    pub fn rows(&self) -> (r: usize)
        ensures
            r == self.spec_rows(),
    {
        self.rows
    }

    /// The number of columns.
    pub fn cols(&self) -> (r: usize)
        ensures
            r == self.spec_cols(),
    {
        self.cols
    }

    /// The entries in row-major order.
    pub fn as_slice(&self) -> (r: &[i32])
        ensures
            r@ == self@,
    {
        self.data.as_slice()
    }

    /// The entries in row-major order, mutably.
    pub fn as_mut_slice(&mut self) -> (r: &mut [i32])
        ensures
            r@ == old(self)@,
            final(self)@ == final(r)@,
            final(self).spec_rows() == old(self).spec_rows(),
            final(self).spec_cols() == old(self).spec_cols(),
    {
        self.data.as_mut_slice()
    }

    /// The entry at row `row`, column `col`.
    pub fn get(&self, row: usize, col: usize) -> (r: i32)
        requires
            self.wf(),
            row < self.spec_rows(),
            col < self.spec_cols(),
        ensures
            r == entry(self@, self.spec_cols(), row as int, col as int),
    {
        let n = self.data.len();
        proof {
            lemma_entry_index(row as int, col as int, self.spec_rows(), self.spec_cols());
            assert(row * self.spec_cols() + col < n);
        }
        self.data[row * self.cols + col]
    }

    /// Overwrites the entry at row `row`, column `col` with `value`.
    pub fn set(&mut self, row: usize, col: usize, value: i32)
        requires
            old(self).wf(),
            row < old(self).spec_rows(),
            col < old(self).spec_cols(),
        ensures
            final(self).wf(),
            final(self).spec_rows() == old(self).spec_rows(),
            final(self).spec_cols() == old(self).spec_cols(),
            final(self)@ == old(self)@.update(
                row * old(self).spec_cols() + col,
                value,
            ),
    {
        let n = self.data.len();
        proof {
            lemma_entry_index(row as int, col as int, self.spec_rows(), self.spec_cols());
            assert(row * self.spec_cols() + col < n);
        }
        self.data[row * self.cols + col] = value;
    }

    /// Adds `val` to every entry in place.
    pub fn add_const(&mut self, val: i32)
        requires
            old(self).wf(),
            forall|k: int|
                0 <= k < old(self)@.len() ==> i32::MIN <= #[trigger] old(self)@[k] + val <= i32::MAX,
        ensures
            final(self).wf(),
            final(self).spec_rows() == old(self).spec_rows(),
            final(self).spec_cols() == old(self).spec_cols(),
            final(self)@.len() == old(self)@.len(),
            forall|k: int| 0 <= k < old(self)@.len() ==> #[trigger] final(self)@[k] == old(self)@[k] + val,
    {
        let ghost orig = self.data@;
        let n = self.data.len();
        let mut k: usize = 0;
        while k < n
            invariant
                0 <= k <= n,
                n == self.data@.len(),
                orig.len() == n,
                forall|x: int| 0 <= x < k ==> #[trigger] self.data@[x] == orig[x] + val,
                forall|x: int| k <= x < n ==> #[trigger] self.data@[x] == orig[x],
                forall|x: int| 0 <= x < n ==> i32::MIN <= #[trigger] orig[x] + val <= i32::MAX,
                self.rows == old(self).rows,
                self.cols == old(self).cols,
            decreases n - k,
        {
            let v = self.data[k];
            self.data[k] = v + val;
            k = k + 1;
        }
    }

    /// A copy of the matrix with every entry multiplied by `val`.
    pub fn mul_const(&self, val: i32) -> (r: Self)
        requires
            self.wf(),
            forall|k: int| 0 <= k < self@.len() ==> i32::MIN <= #[trigger] self@[k] * val <= i32::MAX,
        ensures
            r.wf(),
            r.spec_rows() == self.spec_rows(),
            r.spec_cols() == self.spec_cols(),
            r@.len() == self@.len(),
            forall|k: int| 0 <= k < self@.len() ==> #[trigger] r@[k] == self@[k] * val,
    {
        let n = self.data.len();
        let mut data: Vec<i32> = Vec::new();
        let mut k: usize = 0;
        while k < n
            invariant
                0 <= k <= n,
                n == self.data@.len(),
                self.wf(),
                data@.len() == k,
                forall|x: int| 0 <= x < n ==> i32::MIN <= #[trigger] self.data@[x] * val <= i32::MAX,
                forall|x: int| 0 <= x < k ==> #[trigger] data@[x] == self.data@[x] * val,
            decreases n - k,
        {
            let v = self.data[k];
            data.push(v * val);
            k = k + 1;
        }
        Matrix { rows: self.rows, cols: self.cols, data }
    }

    /// The matrix-vector product with the first `cols` entries of `vector`.
    pub fn mul_vect(&self, vector: &[i32]) -> (r: Vec<i32>)
        requires
            self.wf(),
            vector@.len() >= self.spec_cols(),
            forall|i: int, j: int|
                0 <= i < self.spec_rows() && 0 <= j < self.spec_cols() ==> i32::MIN <= #[trigger] entry(
                    self@,
                    self.spec_cols(),
                    i,
                    j,
                ) * vector@[j] <= i32::MAX,
            forall|i: int, k: int|
                0 <= i < self.spec_rows() && 0 <= k <= self.spec_cols() ==> i32::MIN <= #[trigger] row_dot(
                    self@,
                    self.spec_cols(),
                    i,
                    vector@,
                    k,
                ) <= i32::MAX,
        ensures
            r@.len() == self.spec_rows(),
            forall|i: int|
                0 <= i < self.spec_rows() ==> #[trigger] r@[i] == row_dot(
                    self@,
                    self.spec_cols(),
                    i,
                    vector@,
                    self.spec_cols(),
                ),
    {
        let mut out: Vec<i32> = Vec::new();
        let rows = self.rows;
        let cols = self.cols;
        let mut i: usize = 0;
        while i < rows
            invariant
                0 <= i <= rows,
                self.wf(),
                rows == self.spec_rows(),
                cols == self.spec_cols(),
                vector@.len() >= cols,
                forall|x: int, j: int|
                    0 <= x < rows && 0 <= j < cols ==> i32::MIN <= #[trigger] entry(self@, cols as int, x, j)
                        * vector@[j] <= i32::MAX,
                forall|x: int, k: int|
                    0 <= x < rows && 0 <= k <= cols ==> i32::MIN <= #[trigger] row_dot(
                        self@,
                        cols as int,
                        x,
                        vector@,
                        k,
                    ) <= i32::MAX,
                out@.len() == i,
                forall|x: int|
                    0 <= x < i ==> #[trigger] out@[x] == row_dot(self@, cols as int, x, vector@, cols as int),
            decreases rows - i,
        {
            let mut acc: i32 = 0;
            let mut j: usize = 0;
            while j < cols
                invariant
                    0 <= j <= cols,
                    0 <= i < rows,
                    self.wf(),
                    rows == self.spec_rows(),
                    cols == self.spec_cols(),
                    vector@.len() >= cols,
                    forall|x: int, jj: int|
                        0 <= x < rows && 0 <= jj < cols ==> i32::MIN <= #[trigger] entry(
                            self@,
                            cols as int,
                            x,
                            jj,
                        ) * vector@[jj] <= i32::MAX,
                    forall|x: int, k: int|
                        0 <= x < rows && 0 <= k <= cols ==> i32::MIN <= #[trigger] row_dot(
                            self@,
                            cols as int,
                            x,
                            vector@,
                            k,
                        ) <= i32::MAX,
                    acc == row_dot(self@, cols as int, i as int, vector@, j as int),
                decreases cols - j,
            {
                let prod = self.get(i, j) * vector[j];
                proof {
                    assert(row_dot(self@, cols as int, i as int, vector@, j + 1) == row_dot(
                        self@,
                        cols as int,
                        i as int,
                        vector@,
                        j as int,
                    ) + entry(self@, cols as int, i as int, j as int) * vector@[j as int]);
                }
                acc = acc + prod;
                j = j + 1;
            }
            out.push(acc);
            i = i + 1;
        }
        out
    }

    /// The matrix product `self * other`.
    pub fn mul_matrix(&self, other: &Matrix) -> (r: Self)
        requires
            self.wf(),
            other.wf(),
            self.spec_cols() == other.spec_rows(),
            self.spec_rows() * other.spec_cols() <= usize::MAX,
            forall|i: int, j: int, k: int|
                0 <= i < self.spec_rows() && 0 <= j < other.spec_cols() && 0 <= k
                    < self.spec_cols() ==> i32::MIN <= #[trigger] entry(self@, self.spec_cols(), i, k)
                    * #[trigger] entry(other@, other.spec_cols(), k, j) <= i32::MAX,
            forall|i: int, j: int, k: int|
                0 <= i < self.spec_rows() && 0 <= j < other.spec_cols() && 0 <= k
                    <= self.spec_cols() ==> i32::MIN <= #[trigger] mat_dot(
                    self@,
                    self.spec_cols(),
                    other@,
                    other.spec_cols(),
                    i,
                    j,
                    k,
                ) <= i32::MAX,
        ensures
            r.wf(),
            r.spec_rows() == self.spec_rows(),
            r.spec_cols() == other.spec_cols(),
            forall|i: int, j: int|
                0 <= i < self.spec_rows() && 0 <= j < other.spec_cols() ==> #[trigger] entry(
                    r@,
                    other.spec_cols(),
                    i,
                    j,
                ) == mat_dot(
                    self@,
                    self.spec_cols(),
                    other@,
                    other.spec_cols(),
                    i,
                    j,
                    self.spec_cols(),
                ),
    {
        let rows = self.rows;
        let inner = self.cols;
        let cols = other.cols;
        let mut result = Matrix::new(rows, cols);
        let mut i: usize = 0;
        while i < rows
            invariant
                0 <= i <= rows,
                self.wf(),
                other.wf(),
                result.wf(),
                rows == self.spec_rows(),
                inner == self.spec_cols(),
                cols == other.spec_cols(),
                inner == other.spec_rows(),
                result.spec_rows() == rows,
                result.spec_cols() == cols,
                forall|x: int, j: int, k: int|
                    0 <= x < rows && 0 <= j < cols && 0 <= k < inner ==> i32::MIN <= #[trigger] entry(
                        self@,
                        inner as int,
                        x,
                        k,
                    ) * #[trigger] entry(other@, cols as int, k, j) <= i32::MAX,
                forall|x: int, j: int, k: int|
                    0 <= x < rows && 0 <= j < cols && 0 <= k <= inner ==> i32::MIN <= #[trigger] mat_dot(
                        self@,
                        inner as int,
                        other@,
                        cols as int,
                        x,
                        j,
                        k,
                    ) <= i32::MAX,
                forall|x: int, j: int|
                    0 <= x < i && 0 <= j < cols ==> #[trigger] entry(result@, cols as int, x, j) == mat_dot(
                        self@,
                        inner as int,
                        other@,
                        cols as int,
                        x,
                        j,
                        inner as int,
                    ),
            decreases rows - i,
        {
            let mut j: usize = 0;
            while j < cols
                invariant
                    0 <= j <= cols,
                    0 <= i < rows,
                    self.wf(),
                    other.wf(),
                    result.wf(),
                    rows == self.spec_rows(),
                    inner == self.spec_cols(),
                    cols == other.spec_cols(),
                    inner == other.spec_rows(),
                    result.spec_rows() == rows,
                    result.spec_cols() == cols,
                    forall|x: int, jj: int, k: int|
                        0 <= x < rows && 0 <= jj < cols && 0 <= k < inner ==> i32::MIN <= #[trigger] entry(
                            self@,
                            inner as int,
                            x,
                            k,
                        ) * #[trigger] entry(other@, cols as int, k, jj) <= i32::MAX,
                    forall|x: int, jj: int, k: int|
                        0 <= x < rows && 0 <= jj < cols && 0 <= k <= inner ==> i32::MIN <= #[trigger] mat_dot(
                            self@,
                            inner as int,
                            other@,
                            cols as int,
                            x,
                            jj,
                            k,
                        ) <= i32::MAX,
                    forall|x: int, jj: int|
                        0 <= x < i && 0 <= jj < cols ==> #[trigger] entry(result@, cols as int, x, jj)
                            == mat_dot(
                            self@,
                            inner as int,
                            other@,
                            cols as int,
                            x,
                            jj,
                            inner as int,
                        ),
                    forall|jj: int|
                        0 <= jj < j ==> #[trigger] entry(result@, cols as int, i as int, jj) == mat_dot(
                            self@,
                            inner as int,
                            other@,
                            cols as int,
                            i as int,
                            jj,
                            inner as int,
                        ),
                decreases cols - j,
            {
                let mut acc: i32 = 0;
                let mut k: usize = 0;
                while k < inner
                    invariant
                        0 <= k <= inner,
                        0 <= i < rows,
                        0 <= j < cols,
                        self.wf(),
                        other.wf(),
                        rows == self.spec_rows(),
                        inner == self.spec_cols(),
                        cols == other.spec_cols(),
                        inner == other.spec_rows(),
                        forall|x: int, jj: int, kk: int|
                            0 <= x < rows && 0 <= jj < cols && 0 <= kk < inner ==> i32::MIN
                                <= #[trigger] entry(self@, inner as int, x, kk) * #[trigger] entry(
                                other@,
                                cols as int,
                                kk,
                                jj,
                            ) <= i32::MAX,
                        forall|x: int, jj: int, kk: int|
                            0 <= x < rows && 0 <= jj < cols && 0 <= kk <= inner ==> i32::MIN
                                <= #[trigger] mat_dot(
                                self@,
                                inner as int,
                                other@,
                                cols as int,
                                x,
                                jj,
                                kk,
                            ) <= i32::MAX,
                        acc == mat_dot(
                            self@,
                            inner as int,
                            other@,
                            cols as int,
                            i as int,
                            j as int,
                            k as int,
                        ),
                    decreases inner - k,
                {
                    let a = self.get(i, k);
                    let b = other.get(k, j);
                    proof {
                        assert(a == entry(self@, inner as int, i as int, k as int));
                        assert(b == entry(other@, cols as int, k as int, j as int));
                        assert(i32::MIN <= a * b <= i32::MAX);
                        assert(mat_dot(
                            self@,
                            inner as int,
                            other@,
                            cols as int,
                            i as int,
                            j as int,
                            k + 1,
                        ) == mat_dot(
                            self@,
                            inner as int,
                            other@,
                            cols as int,
                            i as int,
                            j as int,
                            k as int,
                        ) + a * b);
                    }
                    let prod = a * b;
                    acc = acc + prod;
                    k = k + 1;
                }
                let ghost before = result@;
                result.set(i, j, acc);
                proof {
                    lemma_entry_index(i as int, j as int, rows as int, cols as int);
                    assert forall|x: int, jj: int|
                        0 <= x < rows && 0 <= jj < cols && !(x == i && jj == j) implies entry(
                        result@,
                        cols as int,
                        x,
                        jj,
                    ) == entry(before, cols as int, x, jj) by {
                        lemma_entry_index(x, jj, rows as int, cols as int);
                        lemma_distinct_cells(x, jj, i as int, j as int, cols as int);
                    }
                    assert(entry(result@, cols as int, i as int, j as int) == acc);
                    assert forall|x: int, jj: int|
                        0 <= x < i && 0 <= jj < cols implies #[trigger] entry(
                        result@,
                        cols as int,
                        x,
                        jj,
                    ) == mat_dot(
                        self@,
                        inner as int,
                        other@,
                        cols as int,
                        x,
                        jj,
                        inner as int,
                    ) by {
                        assert(entry(result@, cols as int, x, jj) == entry(
                            before,
                            cols as int,
                            x,
                            jj,
                        ));
                    }
                    assert forall|jj: int|
                        0 <= jj < j + 1 implies #[trigger] entry(
                        result@,
                        cols as int,
                        i as int,
                        jj,
                    ) == mat_dot(
                        self@,
                        inner as int,
                        other@,
                        cols as int,
                        i as int,
                        jj,
                        inner as int,
                    ) by {
                        if jj < j {
                            assert(entry(result@, cols as int, i as int, jj) == entry(
                                before,
                                cols as int,
                                i as int,
                                jj,
                            ));
                        }
                    }
                }
                j = j + 1;
            }
            i = i + 1;
        }
        result
    }
}

/// Distinct cells of a row-major layout have distinct indices.
pub proof fn lemma_distinct_cells(r1: int, c1: int, r2: int, c2: int, cols: int)
    requires
        0 <= c1 < cols,
        0 <= c2 < cols,
        r1 >= 0,
        r2 >= 0,
        !(r1 == r2 && c1 == c2),
    ensures
        r1 * cols + c1 != r2 * cols + c2,
{
    assert(r1 * cols + c1 != r2 * cols + c2) by (nonlinear_arith)
        requires
            0 <= c1 < cols,
            0 <= c2 < cols,
            r1 >= 0,
            r2 >= 0,
            !(r1 == r2 && c1 == c2),
    ;
}

impl Matrix {
    /// A Gauss-Jordan elimination pass over the integer entries of a square
    /// matrix: the matrix is augmented with the identity, rows are pivoted,
    /// scaled by truncating division and reduced with wrapping arithmetic,
    /// and the right half is returned.  Elimination stops with `None` when a
    /// pivot column holds only zeroes.  Over integers the scaling truncates,
    /// so the result is benchmark churn, not an exact inverse.
    pub fn inverse(&self) -> (r: Option<Matrix>)
        requires
            self.wf(),
            self.spec_rows() == self.spec_cols(),
            2 * self.spec_rows() * self.spec_rows() <= usize::MAX,
        ensures
            match r {
                Some(m) => m.wf() && m.spec_rows() == self.spec_rows() && m.spec_cols()
                    == self.spec_rows(),
                None => true,
            },
    {
        let n = self.rows;
        proof {
            assert(n * (2 * n) <= usize::MAX) by (nonlinear_arith)
                requires
                    2 * (n as int) * (n as int) <= usize::MAX,
            ;
            assert(n * n <= usize::MAX) by (nonlinear_arith)
                requires
                    2 * (n as int) * (n as int) <= usize::MAX,
            ;
            assert(2 * n <= usize::MAX) by (nonlinear_arith)
                requires
                    2 * (n as int) * (n as int) <= usize::MAX,
            ;
        }
        let width = 2 * n;
        let mut augmented = Matrix::new(n, width);

        let mut i: usize = 0;
        while i < n
            invariant
                0 <= i <= n,
                self.wf(),
                n == self.spec_rows(),
                n == self.spec_cols(),
                width == 2 * n,
                augmented.wf(),
                augmented.spec_rows() == n,
                augmented.spec_cols() == width,
            decreases n - i,
        {
            let mut j: usize = 0;
            while j < n
                invariant
                    0 <= j <= n,
                    0 <= i < n,
                    self.wf(),
                    n == self.spec_rows(),
                    n == self.spec_cols(),
                    width == 2 * n,
                    augmented.wf(),
                    augmented.spec_rows() == n,
                    augmented.spec_cols() == width,
                decreases n - j,
            {
                let v = self.get(i, j);
                augmented.set(i, j, v);
                j = j + 1;
            }
            augmented.set(i, n + i, 1);
            i = i + 1;
        }

        let mut i: usize = 0;
        while i < n
            invariant
                0 <= i <= n,
                width == 2 * n,
                augmented.wf(),
                augmented.spec_rows() == n,
                augmented.spec_cols() == width,
            decreases n - i,
        {
            let mut pivot_row: usize = i;
            let mut j: usize = i + 1;
            while j < n
                invariant
                    i < j <= n || (i < n && j == i + 1),
                    i <= pivot_row < n,
                    i < n,
                    width == 2 * n,
                    augmented.wf(),
                    augmented.spec_rows() == n,
                    augmented.spec_cols() == width,
                decreases n - j,
            {
                if augmented.get(j, i) > augmented.get(pivot_row, i) {
                    pivot_row = j;
                }
                j = j + 1;
            }
            if augmented.get(pivot_row, i) == 0 {
                return None;
            }
            if pivot_row != i {
                let mut j: usize = 0;
                while j < width
                    invariant
                        0 <= j <= width,
                        i < n,
                        pivot_row < n,
                        width == 2 * n,
                        augmented.wf(),
                        augmented.spec_rows() == n,
                        augmented.spec_cols() == width,
                    decreases width - j,
                {
                    let temp = augmented.get(i, j);
                    let other = augmented.get(pivot_row, j);
                    augmented.set(i, j, other);
                    augmented.set(pivot_row, j, temp);
                    j = j + 1;
                }
            }

            let pivot = augmented.get(i, i);
            if pivot == 0 {
                return None;
            }
            let mut j: usize = 0;
            while j < width
                invariant
                    0 <= j <= width,
                    i < n,
                    pivot != 0,
                    width == 2 * n,
                    augmented.wf(),
                    augmented.spec_rows() == n,
                    augmented.spec_cols() == width,
                decreases width - j,
            {
                let v = augmented.get(i, j);
                let scaled = #[verifier::truncate] (((v as i64) / (pivot as i64)) as i32);
                augmented.set(i, j, scaled);
                j = j + 1;
            }

            let mut k: usize = 0;
            while k < n
                invariant
                    0 <= k <= n,
                    i < n,
                    width == 2 * n,
                    augmented.wf(),
                    augmented.spec_rows() == n,
                    augmented.spec_cols() == width,
                decreases n - k,
            {
                if k != i {
                    let factor = augmented.get(k, i);
                    let mut j: usize = 0;
                    while j < width
                        invariant
                            0 <= j <= width,
                            i < n,
                            k < n,
                            width == 2 * n,
                            augmented.wf(),
                            augmented.spec_rows() == n,
                            augmented.spec_cols() == width,
                        decreases width - j,
                    {
                        let value = augmented.get(k, j).wrapping_sub(
                            factor.wrapping_mul(augmented.get(i, j)),
                        );
                        augmented.set(k, j, value);
                        j = j + 1;
                    }
                }
                k = k + 1;
            }
            i = i + 1;
        }

        let mut inverse = Matrix::new(n, n);
        let mut i: usize = 0;
        while i < n
            invariant
                0 <= i <= n,
                width == 2 * n,
                augmented.wf(),
                augmented.spec_rows() == n,
                augmented.spec_cols() == width,
                inverse.wf(),
                inverse.spec_rows() == n,
                inverse.spec_cols() == n,
            decreases n - i,
        {
            let mut j: usize = 0;
            while j < n
                invariant
                    0 <= j <= n,
                    i < n,
                    width == 2 * n,
                    augmented.wf(),
                    augmented.spec_rows() == n,
                    augmented.spec_cols() == width,
                    inverse.wf(),
                    inverse.spec_rows() == n,
                    inverse.spec_cols() == n,
                decreases n - j,
            {
                let v = augmented.get(i, n + j);
                inverse.set(i, j, v);
                j = j + 1;
            }
            i = i + 1;
        }
        Some(inverse)
    }
}

} // verus!
