//! Band matrices: only a contiguous band of diagonals is stored, in a
//! diagonal-major layout.

use vstd::prelude::*;

use crate::dense::Dense;

verus! {

/// A band matrix. For each column, the stored values run from the outermost
/// superdiagonal down to the outermost subdiagonal; positions of the band
/// that fall outside the matrix are unused padding, not an error.
#[derive(Clone, Debug, PartialEq)]
pub struct BandMatrix {
    /// The number of rows.
    pub rows: usize,
    /// The number of columns.
    pub columns: usize,
    /// The number of superdiagonals.
    pub superdiagonals: usize,
    /// The number of subdiagonals.
    pub subdiagonals: usize,
    /// The values of the stored diagonals, diagonal-major: for each column,
    /// `superdiagonals + 1 + subdiagonals` values from the uppermost
    /// superdiagonal to the lowest subdiagonal.
    pub data: Vec<i64>,
}

impl BandMatrix {
    /// The number of stored diagonals.
    pub open spec fn diagonals(self) -> int {
        self.superdiagonals + 1 + self.subdiagonals
    }

    /// The structural invariant: one slot per diagonal and column.
    pub open spec fn wf(self) -> bool {
        &&& self.data@.len() == self.diagonals() * self.columns
        &&& self.diagonals() <= usize::MAX
    }

    /// The element at row `i` and column `j`: a stored diagonal value when
    /// (`i`, `j`) lies within the band, and zero outside it.
    pub open spec fn at(self, i: int, j: int) -> i64 {
        if i <= j && j - i <= self.superdiagonals {
            self.data@[j * self.diagonals() + self.superdiagonals - (j - i)]
        } else if j < i && i - j <= self.subdiagonals {
            self.data@[j * self.diagonals() + self.superdiagonals + (i - j)]
        } else {
            0i64
        }
    }

    /// Read the element at row `i` and column `j`.
    pub fn get(&self, i: usize, j: usize) -> (result: i64)
        requires
            self.wf(),
            i < self.rows,
            j < self.columns,
        ensures
            result == self.at(i as int, j as int),
    {
        proof {
            assert(self.data.len() <= usize::MAX);
            lemma_band_index(
                self.diagonals(),
                self.columns as int,
                j as int,
                self.superdiagonals as int,
                self.subdiagonals as int,
                i as int,
            );
        }
        let d = self.superdiagonals + 1 + self.subdiagonals;
        if i <= j && j - i <= self.superdiagonals {
            self.data[j * d + self.superdiagonals - (j - i)]
        } else if j < i && i - j <= self.subdiagonals {
            self.data[j * d + self.superdiagonals + (i - j)]
        } else {
            0i64
        }
    }

    /// Expand the band into its dense representation: every position of the
    /// band lands on its diagonal, and every position outside the band is
    /// zero.
    #[verifier::loop_isolation(false)]
    pub fn to_dense(&self) -> (result: Dense)
        requires
            self.wf(),
            self.rows * self.columns <= usize::MAX,
        ensures
            result.wf(),
            result.rows == self.rows,
            result.columns == self.columns,
            forall|i: int, j: int|
                0 <= i < self.rows && 0 <= j < self.columns ==> #[trigger] result.at(i, j)
                    == self.at(i, j),
    {
        let mut values: Vec<i64> = Vec::new();
        let mut j: usize = 0;
        while j < self.columns
            invariant
                j <= self.columns,
                values@.len() == j * self.rows,
                forall|i2: int, j2: int|
                    0 <= i2 < self.rows && 0 <= j2 < j ==> #[trigger] values@[j2 * self.rows + i2]
                        == self.at(i2, j2),
            decreases self.columns - j,
        {
            let mut i: usize = 0;
            proof {
                assert((j + 1) * self.rows <= self.rows * self.columns) by (nonlinear_arith)
                    requires
                        j < self.columns,
                ;
                assert(j * self.rows + self.rows == (j + 1) * self.rows) by (nonlinear_arith);
            }
            while i < self.rows
                invariant
                    i <= self.rows,
                    j < self.columns,
                    values@.len() == j * self.rows + i,
                    forall|i2: int, j2: int|
                        0 <= i2 < self.rows && 0 <= j2 < j ==> #[trigger] values@[j2 * self.rows
                            + i2] == self.at(i2, j2),
                    forall|i2: int|
                        0 <= i2 < i ==> #[trigger] values@[j * self.rows + i2] == self.at(
                            i2,
                            j as int,
                        ),
                decreases self.rows - i,
            {
                let v = self.get(i, j);
                let ghost prev = values@;
                values.push(v);
                proof {
                    assert forall|i2: int, j2: int|
                        0 <= i2 < self.rows && 0 <= j2 < j implies #[trigger] values@[j2 * self.rows
                        + i2] == self.at(i2, j2) by {
                        crate::dense::lemma_flat_index(self.rows as int, j as int, i2, j2);
                        assert(j2 * self.rows + i2 < (self.rows as int) * (j as int));
                        assert((self.rows as int) * (j as int) == (j as int) * (self.rows
                            as int)) by (nonlinear_arith);
                        assert(j2 * self.rows + i2 < prev.len());
                        assert(values@[j2 * self.rows + i2] == prev[j2 * self.rows + i2]);
                    }
                    assert forall|i2: int| 0 <= i2 < i + 1 implies #[trigger] values@[j * self.rows
                        + i2] == self.at(i2, j as int) by {
                        if i2 < i {
                            assert(values@[j * self.rows + i2] == prev[j * self.rows + i2]);
                        }
                    }
                }
                i += 1;
            }
            j += 1;
        }
        proof {
            assert(values@.len() == self.rows * self.columns) by (nonlinear_arith)
                requires
                    values@.len() == (self.columns as int) * (self.rows as int),
            ;
        }
        let result = Dense::from_vec(values, self.rows, self.columns);
        result
    }
}

/// Every band position of a valid column lies inside the data buffer.
pub proof fn lemma_band_index(d: int, columns: int, j: int, su: int, sl: int, i: int)
    requires
        d == su + 1 + sl,
        su >= 0,
        sl >= 0,
        0 <= j < columns,
        0 <= i,
    ensures
        0 <= j * d,
        j * d + d <= d * columns,
        i <= j && j - i <= su ==> 0 <= j * d + su - (j - i) < d * columns,
        j < i && i - j <= sl ==> 0 <= j * d + su + (i - j) < d * columns,
{
    assert(j * d + d <= columns * d && j * d >= 0 && columns * d == d * columns) by (
    nonlinear_arith)
        requires
            0 <= j < columns,
            d > 0,
    ;
}

} // verus!
