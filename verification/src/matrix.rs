//! A dense matrix of binary64 data, row after row.

use vstd::prelude::*;
use crate::arithmetic::{total, total_of};
use crate::binary64::{Binary64, ONE_BITS};

verus! {

/// A matrix as a mathematical value: its shape and its entries, row-major.
pub struct MatrixView {
    pub rows: nat,
    pub cols: nat,
    pub entries: Seq<Binary64>,
}

impl MatrixView {
    /// The entries fill the shape.
    pub open spec fn wf(self) -> bool {
        self.entries.len() == self.rows * self.cols
    }

    /// The entry in row `i` and column `j`.
    pub open spec fn at(self, i: int, j: int) -> Binary64 {
        self.entries[i * self.cols + j]
    }

    /// Row `i`, left to right.
    pub open spec fn row(self, i: int) -> Seq<Binary64> {
        Seq::new(self.cols, |j: int| self.at(i, j))
    }

    /// The sum of each row, top to bottom.
    pub open spec fn row_sums(self) -> Seq<Binary64> {
        Seq::new(self.rows, |i: int| total(self.row(i)))
    }

    /// The matrix turned over: its rows are the columns of this one.
    pub open spec fn transposed(self) -> MatrixView {
        MatrixView {
            rows: self.cols,
            cols: self.rows,
            entries: Seq::new(
                self.entries.len(),
                |k: int| self.at(k % (self.rows as int), k / (self.rows as int)),
            ),
        }
    }

    /// The matrix less the identity: one is taken off the entries of the
    /// diagonal, and positive zero off all the others.
    pub open spec fn less_identity(self) -> MatrixView {
        MatrixView {
            rows: self.rows,
            cols: self.cols,
            entries: Seq::new(
                self.entries.len(),
                |k: int|
                    self.entries[k].sub_spec(
                        Binary64::of(
                            if self.cols > 0 && k / (self.cols as int) == k % (self.cols as int) {
                                ONE_BITS
                            } else {
                                0
                            },
                        ),
                    ),
            ),
        }
    }
}

/// A matrix whose entries fill its shape.
#[derive(Debug)]
pub struct Matrix {
    rows: usize,
    cols: usize,
    entries: Vec<Binary64>,
}

impl View for Matrix {
    type V = MatrixView;

    closed spec fn view(&self) -> MatrixView {
        MatrixView { rows: self.rows as nat, cols: self.cols as nat, entries: self.entries@ }
    }
}

/// A place inside a row-major matrix lies inside its entries.
pub proof fn lemma_place_in_range(rows: int, cols: int, i: int, j: int)
    requires
        0 <= i < rows,
        0 <= j < cols,
    ensures
        0 <= i * cols + j < rows * cols,
{
    assert(i * cols + j < rows * cols) by (nonlinear_arith)
        requires
            0 <= i < rows,
            0 <= j < cols,
    {
        assert((i + 1) * cols <= rows * cols);
        assert((i + 1) * cols == i * cols + cols);
    }
    assert(0 <= i * cols) by (nonlinear_arith)
        requires
            0 <= i,
            0 <= cols,
    ;
}

impl Clone for Matrix {
    fn clone(&self) -> (r: Self)
        ensures
            r@ == self@,
    {
        proof {
            use_type_invariant(self);
        }
        let entries = self.entries.clone();
        assert(entries@ =~= self.entries@);
        Matrix { rows: self.rows, cols: self.cols, entries }
    }
}

impl Matrix {
    #[verifier::type_invariant]
    spec fn inv(self) -> bool {
        self@.wf()
    }

    /// The matrix of the given shape with the given entries, row after row;
    /// none where the entries do not fill the shape.
    pub fn from_row_slice(rows: usize, cols: usize, entries: Vec<Binary64>) -> (r: Option<Matrix>)
        ensures
            entries@.len() == rows * cols ==> r is Some && r.unwrap()@ == (MatrixView {
                rows: rows as nat,
                cols: cols as nat,
                entries: entries@,
            }),
            entries@.len() != rows * cols ==> r is None,
    {
        let given = entries.len();
        match rows.checked_mul(cols) {
            Some(count) => {
                if given == count {
                    Some(Matrix { rows, cols, entries })
                } else {
                    None
                }
            },
            None => None,
        }
    }

    /// The number of rows.
    pub fn rows(&self) -> (r: usize)
        ensures
            r == self@.rows,
            self@.wf(),
    {
        proof {
            use_type_invariant(self);
        }
        self.rows
    }

    /// The number of columns.
    pub fn cols(&self) -> (r: usize)
        ensures
            r == self@.cols,
            self@.wf(),
    {
        proof {
            use_type_invariant(self);
        }
        self.cols
    }

    /// The entries, row after row.
    pub fn entries(&self) -> (r: &Vec<Binary64>)
        ensures
            r@ == self@.entries,
            self@.wf(),
    {
        proof {
            use_type_invariant(self);
        }
        &self.entries
    }

    /// Row `i`, left to right, where there is one.
    pub fn row(&self, i: usize) -> (r: Option<Vec<Binary64>>)
        ensures
            i < self@.rows ==> r is Some && r.unwrap()@ == self@.row(i as int),
            i >= self@.rows ==> r is None,
    {
        proof {
            use_type_invariant(self);
        }
        if i >= self.rows {
            return None;
        }
        let count = self.entries.len();
        let mut out: Vec<Binary64> = Vec::with_capacity(self.cols);
        let mut j: usize = 0;
        while j < self.cols
            invariant
                j <= self.cols,
                i < self.rows,
                self@.wf(),
                self.entries@.len() == count,
                out@ == Seq::new(j as nat, |k: int| self@.at(i as int, k)),
            decreases self.cols - j,
        {
            proof {
                lemma_place_in_range(self.rows as int, self.cols as int, i as int, j as int);
            }
            out.push(self.entries[i * self.cols + j]);
            j += 1;
            assert(out@ =~= Seq::new(j as nat, |k: int| self@.at(i as int, k)));
        }
        Some(out)
    }

    /// The sum of each row, top to bottom.
    pub fn row_sums(&self) -> (r: Vec<Binary64>)
        ensures
            r@ == self@.row_sums(),
    {
        let mut out: Vec<Binary64> = Vec::with_capacity(self.rows);
        let mut i: usize = 0;
        while i < self.rows
            invariant
                i <= self.rows,
                out@ == Seq::new(i as nat, |k: int| total(self@.row(k))),
            decreases self.rows - i,
        {
            let row = self.row(i).unwrap();
            out.push(total_of(&row));
            i += 1;
            assert(out@ =~= Seq::new(i as nat, |k: int| total(self@.row(k))));
        }
        out
    }

    /// The matrix turned over: the entry in row `i` and column `j` of the
    /// result is the entry in row `j` and column `i` of this one.
    pub fn transpose(&self) -> (r: Matrix)
        ensures
            r@ == self@.transposed(),
            r@.wf(),
            forall|i: int, j: int|
                0 <= i < self@.cols && 0 <= j < self@.rows ==> #[trigger] r@.at(i, j) == self@.at(
                    j,
                    i,
                ),
    {
        proof {
            use_type_invariant(self);
        }
        let rows = self.rows;
        let cols = self.cols;
        let count = self.entries.len();
        let mut out: Vec<Binary64> = Vec::with_capacity(count);
        let mut i: usize = 0;
        while i < cols
            invariant
                i <= cols,
                rows == self.rows,
                cols == self.cols,
                self@.wf(),
                count == self.entries@.len(),
                out@.len() == i * rows,
                forall|k: int|
                    0 <= k < out@.len() ==> #[trigger] out@[k] == self@.at(
                        k % (rows as int),
                        k / (rows as int),
                    ),
            decreases cols - i,
        {
            let mut j: usize = 0;
            while j < rows
                invariant
                    j <= rows,
                    i < cols,
                    rows == self.rows,
                    cols == self.cols,
                    self@.wf(),
                    count == self.entries@.len(),
                    out@.len() == i * rows + j,
                    forall|k: int|
                        0 <= k < out@.len() ==> #[trigger] out@[k] == self@.at(
                            k % (rows as int),
                            k / (rows as int),
                        ),
                decreases rows - j,
            {
                proof {
                    lemma_place_in_range(rows as int, cols as int, j as int, i as int);
                    lemma_place_in_range(cols as int, rows as int, i as int, j as int);
                    vstd::arithmetic::div_mod::lemma_fundamental_div_mod_converse(
                        i * rows + j,
                        rows as int,
                        i as int,
                        j as int,
                    );
                    assert(i * rows == rows * i) by (nonlinear_arith);
                }
                out.push(self.entries[j * cols + i]);
                j += 1;
            }
            proof {
                assert((i + 1) * rows == i * rows + rows) by (nonlinear_arith);
            }
            i += 1;
        }
        proof {
            assert(cols * rows == rows * cols) by (nonlinear_arith);
            assert(out@ =~= self@.transposed().entries);
            assert forall|a: int, b: int| 0 <= a < cols && 0 <= b < rows implies #[trigger]
                self@.transposed().at(a, b) == self@.at(b, a) by {
                lemma_place_in_range(cols as int, rows as int, a, b);
                vstd::arithmetic::div_mod::lemma_fundamental_div_mod_converse(
                    a * rows + b,
                    rows as int,
                    a,
                    b,
                );
                assert(a * rows == rows * a) by (nonlinear_arith);
            }
        }
        Matrix { rows: cols, cols: rows, entries: out }
    }

    /// The matrix less the identity.
    pub fn less_identity(&self) -> (r: Matrix)
        ensures
            r@ == self@.less_identity(),
    {
        proof {
            use_type_invariant(self);
        }
        let count = self.entries.len();
        let mut out: Vec<Binary64> = Vec::with_capacity(count);
        let mut k: usize = 0;
        while k < count
            invariant
                k <= count,
                count == self.entries@.len(),
                out@ == self@.less_identity().entries.take(k as int),
            decreases count - k,
        {
            let on_diagonal = self.cols > 0 && k / self.cols == k % self.cols;
            let off = if on_diagonal {
                Binary64 { bits: ONE_BITS }
            } else {
                Binary64 { bits: 0 }
            };
            out.push(self.entries[k].sub(off));
            k += 1;
            assert(out@ =~= self@.less_identity().entries.take(k as int));
        }
        proof {
            assert(self@.less_identity().entries.take(count as int)
                =~= self@.less_identity().entries);
        }
        Matrix { rows: self.rows, cols: self.cols, entries: out }
    }

    /// The entry in row `i` and column `j`, where there is one.
    pub fn get(&self, i: usize, j: usize) -> (r: Option<Binary64>)
        ensures
            i < self@.rows && j < self@.cols ==> r == Some(self@.at(i as int, j as int)),
            !(i < self@.rows && j < self@.cols) ==> r is None,
    {
        proof {
            use_type_invariant(self);
        }
        let count = self.entries.len();
        if i < self.rows && j < self.cols {
            proof {
                lemma_place_in_range(self.rows as int, self.cols as int, i as int, j as int);
            }
            Some(self.entries[i * self.cols + j])
        } else {
            None
        }
    }
}

} // verus!
