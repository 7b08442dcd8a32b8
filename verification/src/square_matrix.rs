//! The square-matrix variant of the dense matrix workload: an `n x n` matrix
//! over `i32` entries with element access and scalar, vector and matrix
//! products.

use vstd::prelude::*;

verus! {

use crate::matrix::{entry, row_dot, mat_dot, lemma_entry_index, lemma_distinct_cells};

/// An `n x n` matrix stored in row-major order.
pub struct Matrix {
    n: usize,
    data: Vec<i32>,
}

impl View for Matrix {
    type V = Seq<i32>;

    closed spec fn view(&self) -> Seq<i32> {
        self.data@
    }
}

impl Matrix {
    /// The number of rows and columns.
    pub closed spec fn spec_n(&self) -> int {
        self.n as int
    }

    /// The storage holds exactly one entry per cell.
    pub open spec fn wf(&self) -> bool {
        self@.len() == self.spec_n() * self.spec_n()
    }

    /// An `n x n` matrix of zeroes.
    pub fn new(n: usize) -> (r: Self)
        requires
            n * n <= usize::MAX,
        ensures
            r.wf(),
            r.spec_n() == n,
            forall|k: int| 0 <= k < r@.len() ==> r@[k] == 0i32,
    {
        let size = n * n;
        let mut data: Vec<i32> = Vec::new();
        let mut k: usize = 0;
        while k < size
            invariant
                0 <= k <= size,
                data@.len() == k,
                forall|x: int| 0 <= x < k ==> data@[x] == 0i32,
            decreases size - k,
        {
            data.push(0);
            k = k + 1;
        }
        Matrix { n, data }
    }

    /// The entries in row-major order, mutably.
    pub fn as_mut_slice(&mut self) -> (r: &mut [i32])
        ensures
            r@ == old(self)@,
            final(self)@ == final(r)@,
            final(self).spec_n() == old(self).spec_n(),
    {
        self.data.as_mut_slice()
    }

    /// The entries in row-major order.
    pub fn as_slice(&self) -> (r: &[i32])
        ensures
            r@ == self@,
    {
        self.data.as_slice()
    }

    /// The entry at row `row`, column `col`.
    pub fn get(&self, row: usize, col: usize) -> (r: i32)
        requires
            self.wf(),
            row < self.spec_n(),
            col < self.spec_n(),
        ensures
            r == entry(self@, self.spec_n(), row as int, col as int),
    {
        let len = self.data.len();
        proof {
            lemma_entry_index(row as int, col as int, self.spec_n(), self.spec_n());
            assert(row * self.spec_n() + col < len);
        }
        self.data[row * self.n + col]
    }

    /// Overwrites the entry at row `row`, column `col` with `value`.
    pub fn set(&mut self, row: usize, col: usize, value: i32)
        requires
            old(self).wf(),
            row < old(self).spec_n(),
            col < old(self).spec_n(),
        ensures
            final(self).wf(),
            final(self).spec_n() == old(self).spec_n(),
            final(self)@ == old(self)@.update(row * old(self).spec_n() + col, value),
    {
        let len = self.data.len();
        proof {
            lemma_entry_index(row as int, col as int, self.spec_n(), self.spec_n());
            assert(row * self.spec_n() + col < len);
        }
        self.data[row * self.n + col] = value;
    }

    /// Adds `val` to every entry in place.
    pub fn add_const(&mut self, val: i32)
        requires
            old(self).wf(),
            forall|k: int|
                0 <= k < old(self)@.len() ==> i32::MIN <= #[trigger] old(self)@[k] + val
                    <= i32::MAX,
        ensures
            final(self).wf(),
            final(self).spec_n() == old(self).spec_n(),
            final(self)@.len() == old(self)@.len(),
            forall|k: int|
                0 <= k < old(self)@.len() ==> #[trigger] final(self)@[k] == old(self)@[k] + val,
    {
        let ghost orig = self.data@;
        let len = self.data.len();
        let mut k: usize = 0;
        while k < len
            invariant
                0 <= k <= len,
                len == self.data@.len(),
                orig.len() == len,
                forall|x: int| 0 <= x < k ==> #[trigger] self.data@[x] == orig[x] + val,
                forall|x: int| k <= x < len ==> #[trigger] self.data@[x] == orig[x],
                forall|x: int| 0 <= x < len ==> i32::MIN <= #[trigger] orig[x] + val <= i32::MAX,
                self.n == old(self).n,
            decreases len - k,
        {
            let v = self.data[k];
            self.data[k] = v + val;
            k = k + 1;
        }
    }

    /// A copy of the matrix with every entry multiplied by `val`.
    pub fn mul_const(&self, val: i32) -> (r: Self)
        requires
            self.wf(),
            forall|k: int|
                0 <= k < self@.len() ==> i32::MIN <= #[trigger] self@[k] * val <= i32::MAX,
        ensures
            r.wf(),
            r.spec_n() == self.spec_n(),
            r@.len() == self@.len(),
            forall|k: int| 0 <= k < self@.len() ==> #[trigger] r@[k] == self@[k] * val,
    {
        let len = self.data.len();
        let mut data: Vec<i32> = Vec::new();
        let mut k: usize = 0;
        while k < len
            invariant
                0 <= k <= len,
                len == self.data@.len(),
                self.wf(),
                data@.len() == k,
                forall|x: int|
                    0 <= x < len ==> i32::MIN <= #[trigger] self.data@[x] * val <= i32::MAX,
                forall|x: int| 0 <= x < k ==> #[trigger] data@[x] == self.data@[x] * val,
            decreases len - k,
        {
            let v = self.data[k];
            data.push(v * val);
            k = k + 1;
        }
        Matrix { n: self.n, data }
    }

    /// The matrix-vector product with the first `n` entries of `vector`.
    pub fn mul_vect(&self, vector: &[i32]) -> (r: Vec<i32>)
        requires
            self.wf(),
            vector@.len() >= self.spec_n(),
            forall|i: int, j: int|
                0 <= i < self.spec_n() && 0 <= j < self.spec_n() ==> i32::MIN <= #[trigger] entry(
                    self@,
                    self.spec_n(),
                    i,
                    j,
                ) * vector@[j] <= i32::MAX,
            forall|i: int, k: int|
                0 <= i < self.spec_n() && 0 <= k <= self.spec_n() ==> i32::MIN
                    <= #[trigger] row_dot(self@, self.spec_n(), i, vector@, k) <= i32::MAX,
        ensures
            r@.len() == self.spec_n(),
            forall|i: int|
                0 <= i < self.spec_n() ==> #[trigger] r@[i] == row_dot(
                    self@,
                    self.spec_n(),
                    i,
                    vector@,
                    self.spec_n(),
                ),
    {
        let n = self.n;
        let mut out: Vec<i32> = Vec::new();
        let mut i: usize = 0;
        while i < n
            invariant
                0 <= i <= n,
                self.wf(),
                n == self.spec_n(),
                vector@.len() >= n,
                forall|x: int, j: int|
                    0 <= x < n && 0 <= j < n ==> i32::MIN <= #[trigger] entry(
                        self@,
                        n as int,
                        x,
                        j,
                    ) * vector@[j] <= i32::MAX,
                forall|x: int, k: int|
                    0 <= x < n && 0 <= k <= n ==> i32::MIN <= #[trigger] row_dot(
                        self@,
                        n as int,
                        x,
                        vector@,
                        k,
                    ) <= i32::MAX,
                out@.len() == i,
                forall|x: int|
                    0 <= x < i ==> #[trigger] out@[x] == row_dot(
                        self@,
                        n as int,
                        x,
                        vector@,
                        n as int,
                    ),
            decreases n - i,
        {
            let mut acc: i32 = 0;
            let mut j: usize = 0;
            while j < n
                invariant
                    0 <= j <= n,
                    0 <= i < n,
                    self.wf(),
                    n == self.spec_n(),
                    vector@.len() >= n,
                    forall|x: int, jj: int|
                        0 <= x < n && 0 <= jj < n ==> i32::MIN <= #[trigger] entry(
                            self@,
                            n as int,
                            x,
                            jj,
                        ) * vector@[jj] <= i32::MAX,
                    forall|x: int, k: int|
                        0 <= x < n && 0 <= k <= n ==> i32::MIN <= #[trigger] row_dot(
                            self@,
                            n as int,
                            x,
                            vector@,
                            k,
                        ) <= i32::MAX,
                    acc == row_dot(self@, n as int, i as int, vector@, j as int),
                decreases n - j,
            {
                let a = self.get(i, j);
                let b = vector[j];
                proof {
                    assert(a == entry(self@, n as int, i as int, j as int));
                    assert(i32::MIN <= a * b <= i32::MAX);
                    assert(row_dot(self@, n as int, i as int, vector@, j + 1) == row_dot(
                        self@,
                        n as int,
                        i as int,
                        vector@,
                        j as int,
                    ) + a * b);
                }
                acc = acc + a * b;
                j = j + 1;
            }
            out.push(acc);
            i = i + 1;
        }
        out
    }

    /// The matrix product `self * other`.
    pub fn mul_matrix(&self, other: &Matrix) -> (r: Self)
        requires
            self.wf(),
            other.wf(),
            self.spec_n() == other.spec_n(),
            forall|i: int, j: int, k: int|
                0 <= i < self.spec_n() && 0 <= j < self.spec_n() && 0 <= k < self.spec_n()
                    ==> i32::MIN <= #[trigger] entry(self@, self.spec_n(), i, k)
                    * #[trigger] entry(other@, self.spec_n(), k, j) <= i32::MAX,
            forall|i: int, j: int, k: int|
                0 <= i < self.spec_n() && 0 <= j < self.spec_n() && 0 <= k <= self.spec_n()
                    ==> i32::MIN <= #[trigger] mat_dot(
                    self@,
                    self.spec_n(),
                    other@,
                    self.spec_n(),
                    i,
                    j,
                    k,
                ) <= i32::MAX,
        ensures
            r.wf(),
            r.spec_n() == self.spec_n(),
            forall|i: int, j: int|
                0 <= i < self.spec_n() && 0 <= j < self.spec_n() ==> #[trigger] entry(
                    r@,
                    self.spec_n(),
                    i,
                    j,
                ) == mat_dot(
                    self@,
                    self.spec_n(),
                    other@,
                    self.spec_n(),
                    i,
                    j,
                    self.spec_n(),
                ),
    {
        let n = self.n;
        let len = self.data.len();
        proof {
            assert(n * n <= usize::MAX) by {
                assert(self@.len() == len);
            }
        }
        let mut result = Matrix::new(n);
        let mut i: usize = 0;
        while i < n
            invariant
                0 <= i <= n,
                self.wf(),
                other.wf(),
                result.wf(),
                n == self.spec_n(),
                n == other.spec_n(),
                result.spec_n() == n,
                forall|x: int, j: int, k: int|
                    0 <= x < n && 0 <= j < n && 0 <= k < n ==> i32::MIN <= #[trigger] entry(
                        self@,
                        n as int,
                        x,
                        k,
                    ) * #[trigger] entry(other@, n as int, k, j) <= i32::MAX,
                forall|x: int, j: int, k: int|
                    0 <= x < n && 0 <= j < n && 0 <= k <= n ==> i32::MIN <= #[trigger] mat_dot(
                        self@,
                        n as int,
                        other@,
                        n as int,
                        x,
                        j,
                        k,
                    ) <= i32::MAX,
                forall|x: int, j: int|
                    0 <= x < i && 0 <= j < n ==> #[trigger] entry(result@, n as int, x, j)
                        == mat_dot(self@, n as int, other@, n as int, x, j, n as int),
            decreases n - i,
        {
            let mut j: usize = 0;
            while j < n
                invariant
                    0 <= j <= n,
                    0 <= i < n,
                    self.wf(),
                    other.wf(),
                    result.wf(),
                    n == self.spec_n(),
                    n == other.spec_n(),
                    result.spec_n() == n,
                    forall|x: int, jj: int, k: int|
                        0 <= x < n && 0 <= jj < n && 0 <= k < n ==> i32::MIN <= #[trigger] entry(
                            self@,
                            n as int,
                            x,
                            k,
                        ) * #[trigger] entry(other@, n as int, k, jj) <= i32::MAX,
                    forall|x: int, jj: int, k: int|
                        0 <= x < n && 0 <= jj < n && 0 <= k <= n ==> i32::MIN <= #[trigger] mat_dot(
                            self@,
                            n as int,
                            other@,
                            n as int,
                            x,
                            jj,
                            k,
                        ) <= i32::MAX,
                    forall|x: int, jj: int|
                        0 <= x < i && 0 <= jj < n ==> #[trigger] entry(result@, n as int, x, jj)
                            == mat_dot(self@, n as int, other@, n as int, x, jj, n as int),
                    forall|jj: int|
                        0 <= jj < j ==> #[trigger] entry(result@, n as int, i as int, jj)
                            == mat_dot(self@, n as int, other@, n as int, i as int, jj, n as int),
                decreases n - j,
            {
                let mut acc: i32 = 0;
                let mut k: usize = 0;
                while k < n
                    invariant
                        0 <= k <= n,
                        0 <= i < n,
                        0 <= j < n,
                        self.wf(),
                        other.wf(),
                        n == self.spec_n(),
                        n == other.spec_n(),
                        forall|x: int, jj: int, kk: int|
                            0 <= x < n && 0 <= jj < n && 0 <= kk < n ==> i32::MIN
                                <= #[trigger] entry(self@, n as int, x, kk) * #[trigger] entry(
                                other@,
                                n as int,
                                kk,
                                jj,
                            ) <= i32::MAX,
                        forall|x: int, jj: int, kk: int|
                            0 <= x < n && 0 <= jj < n && 0 <= kk <= n ==> i32::MIN
                                <= #[trigger] mat_dot(
                                self@,
                                n as int,
                                other@,
                                n as int,
                                x,
                                jj,
                                kk,
                            ) <= i32::MAX,
                        acc == mat_dot(
                            self@,
                            n as int,
                            other@,
                            n as int,
                            i as int,
                            j as int,
                            k as int,
                        ),
                    decreases n - k,
                {
                    let a = self.get(i, k);
                    let b = other.get(k, j);
                    proof {
                        assert(a == entry(self@, n as int, i as int, k as int));
                        assert(b == entry(other@, n as int, k as int, j as int));
                        assert(i32::MIN <= a * b <= i32::MAX);
                        assert(mat_dot(self@, n as int, other@, n as int, i as int, j as int, k + 1)
                            == mat_dot(
                            self@,
                            n as int,
                            other@,
                            n as int,
                            i as int,
                            j as int,
                            k as int,
                        ) + a * b);
                    }
                    acc = acc + a * b;
                    k = k + 1;
                }
                let ghost before = result@;
                result.set(i, j, acc);
                proof {
                    lemma_entry_index(i as int, j as int, n as int, n as int);
                    assert forall|x: int, jj: int|
                        0 <= x < n && 0 <= jj < n && !(x == i && jj == j) implies entry(
                        result@,
                        n as int,
                        x,
                        jj,
                    ) == entry(before, n as int, x, jj) by {
                        lemma_entry_index(x, jj, n as int, n as int);
                        lemma_distinct_cells(x, jj, i as int, j as int, n as int);
                    }
                    assert(entry(result@, n as int, i as int, j as int) == acc);
                    assert forall|x: int, jj: int| 0 <= x < i && 0 <= jj < n implies #[trigger] entry(
                        result@,
                        n as int,
                        x,
                        jj,
                    ) == mat_dot(self@, n as int, other@, n as int, x, jj, n as int) by {
                        assert(entry(result@, n as int, x, jj) == entry(before, n as int, x, jj));
                    }
                    assert forall|jj: int| 0 <= jj < j + 1 implies #[trigger] entry(
                        result@,
                        n as int,
                        i as int,
                        jj,
                    ) == mat_dot(self@, n as int, other@, n as int, i as int, jj, n as int) by {
                        if jj < j {
                            assert(entry(result@, n as int, i as int, jj) == entry(
                                before,
                                n as int,
                                i as int,
                                jj,
                            ));
                        }
                    }
                }
                j = j + 1;
            }
            i = i + 1;
        }
        result
    }
}

} // verus!
