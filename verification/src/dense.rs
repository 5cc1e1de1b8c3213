//! Dense matrices stored in a flat, column-major buffer.

use vstd::prelude::*;

verus! {

/// A dense matrix: a rectangular array of elements stored column by column in
/// a single flat buffer.
#[derive(Clone, Debug, PartialEq)]
pub struct Dense {
    /// The number of rows.
    pub rows: usize,
    /// The number of columns.
    pub columns: usize,
    /// The values of the elements in column-major order.
    pub values: Vec<i64>,
}

impl Dense {
    /// The structural invariant: the buffer holds exactly one element per
    /// coordinate.
    pub open spec fn wf(self) -> bool {
        self.values@.len() == self.rows * self.columns
    }

    /// The element stored at row `i` and column `j`.
    pub open spec fn at(self, i: int, j: int) -> i64 {
        self.values@[j * self.rows + i]
    }

    /// Create a zero matrix.
    pub fn new(rows: usize, columns: usize) -> (result: Self)
        requires
            rows * columns <= usize::MAX,
        ensures
            result.wf(),
            result.rows == rows,
            result.columns == columns,
            forall|i: int, j: int|
                0 <= i < rows && 0 <= j < columns ==> result.at(i, j) == 0i64,
    {
        proof {
            vstd::arithmetic::mul::lemma_mul_nonnegative(rows as int, columns as int);
        }
        let size = rows * columns;
        let result = Dense { rows, columns, values: vec![0i64; size] };
        proof {
            assert forall|i: int, j: int|
                0 <= i < rows && 0 <= j < columns implies result.at(i, j) == 0i64 by {
                lemma_flat_index(rows as int, columns as int, i, j);
            }
        }
        result
    }

    /// Create a matrix from a buffer of elements in column-major order.
    pub fn from_vec(values: Vec<i64>, rows: usize, columns: usize) -> (result: Self)
        requires
            values@.len() == rows * columns,
        ensures
            result.wf(),
            result.rows == rows,
            result.columns == columns,
            result.values@ == values@,
    {
        Dense { rows, columns, values }
    }

    /// Read the element at row `i` and column `j`.
    pub fn get(&self, i: usize, j: usize) -> (result: i64)
        requires
            self.wf(),
            i < self.rows,
            j < self.columns,
        ensures
            result == self.at(i as int, j as int),
    {
        proof {
            assert(self.values.len() <= usize::MAX);
            lemma_flat_index(self.rows as int, self.columns as int, i as int, j as int);
        }
        self.values[j * self.rows + i]
    }

    /// Overwrite the element at row `i` and column `j`.
    pub fn set(&mut self, i: usize, j: usize, value: i64)
        requires
            old(self).wf(),
            i < old(self).rows,
            j < old(self).columns,
        ensures
            final(self).wf(),
            final(self).rows == old(self).rows,
            final(self).columns == old(self).columns,
            final(self).at(i as int, j as int) == value,
            forall|r: int, c: int|
                0 <= r < final(self).rows && 0 <= c < final(self).columns && !(r == i && c == j)
                    ==> final(self).at(r, c) == old(self).at(r, c),
    {
        proof {
            assert(self.values.len() <= usize::MAX);
            lemma_flat_index(self.rows as int, self.columns as int, i as int, j as int);
        }
        let k = j * self.rows + i;
        self.values[k] = value;
        proof {
            assert forall|r: int, c: int|
                0 <= r < self.rows && 0 <= c < self.columns && !(r == i && c == j)
                    implies self.at(r, c) == old(self).at(r, c) by {
                lemma_flat_index(self.rows as int, self.columns as int, r, c);
                lemma_flat_index_injective(
                    self.rows as int,
                    self.columns as int,
                    r,
                    c,
                    i as int,
                    j as int,
                );
            }
        }
    }
}

/// A column-major flat index stays within the buffer of a matrix.
pub proof fn lemma_flat_index(rows: int, columns: int, i: int, j: int)
    requires
        0 <= i < rows,
        0 <= j < columns,
    ensures
        0 <= j * rows + i < rows * columns,
        j * rows + i == i + j * rows,
{
    assert(0 <= j * rows + i < rows * columns) by (nonlinear_arith)
        requires
            0 <= i < rows,
            0 <= j < columns,
    ;
}

/// A flat column-major index splits into its row and column.
pub proof fn lemma_flat_split(rows: int, columns: int, t: int)
    requires
        0 < rows,
        0 <= t < rows * columns,
    ensures
        0 <= t % rows < rows,
        0 <= t / rows < columns,
        (t / rows) * rows + t % rows == t,
{
    vstd::arithmetic::div_mod::lemma_fundamental_div_mod(t, rows);
    vstd::arithmetic::div_mod::lemma_mod_bound(t, rows);
    assert(0 <= t / rows < columns && (t / rows) * rows + t % rows == t) by (nonlinear_arith)
        requires
            0 < rows,
            0 <= t < rows * columns,
            t == rows * (t / rows) + t % rows,
            0 <= t % rows < rows,
    ;
}

/// Distinct coordinates have distinct column-major flat indices.
pub proof fn lemma_flat_index_injective(rows: int, columns: int, i1: int, j1: int, i2: int, j2: int)
    requires
        0 <= i1 < rows,
        0 <= j1 < columns,
        0 <= i2 < rows,
        0 <= j2 < columns,
        !(i1 == i2 && j1 == j2),
    ensures
        j1 * rows + i1 != j2 * rows + i2,
{
    assert(j1 * rows + i1 != j2 * rows + i2) by (nonlinear_arith)
        requires
            0 <= i1 < rows,
            0 <= j1 < columns,
            0 <= i2 < rows,
            0 <= j2 < columns,
            !(i1 == i2 && j1 == j2),
    ;
}

} // verus!
