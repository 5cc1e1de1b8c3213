//! Diagonal matrices: only the main diagonal is stored.

use vstd::prelude::*;

use crate::band::BandMatrix;
use crate::dense::Dense;

verus! {

/// A diagonal matrix: `data` holds the main diagonal, one value per position
/// of the shorter dimension.
#[derive(Clone, Debug, PartialEq)]
pub struct DiagonalMatrix {
    /// The number of rows.
    pub rows: usize,
    /// The number of columns.
    pub columns: usize,
    /// The values of the diagonal elements.
    pub data: Vec<i64>,
}

impl DiagonalMatrix {
    /// The structural invariant: one stored value per diagonal position.
    pub open spec fn wf(self) -> bool {
        self.data@.len() == vstd::math::min(self.rows as int, self.columns as int)
    }

    /// The element at row `i` and column `j`: a diagonal value on the main
    /// diagonal and zero off it.
    pub open spec fn at(self, i: int, j: int) -> i64 {
        if i == j && i < self.data@.len() {
            self.data@[i]
        } else {
            0i64
        }
    }

    /// Express the matrix as a band matrix with no superdiagonals and no
    /// subdiagonals. Columns beyond the stored diagonal get zero padding,
    /// which the band layout never reads for positions outside the matrix.
    pub fn to_band(&self) -> (result: BandMatrix)
        requires
            self.wf(),
        ensures
            result.wf(),
            result.rows == self.rows,
            result.columns == self.columns,
            result.superdiagonals == 0,
            result.subdiagonals == 0,
            forall|i: int, j: int|
                0 <= i < self.rows && 0 <= j < self.columns ==> #[trigger] result.at(i, j)
                    == self.at(i, j),
    {
        let mut data: Vec<i64> = Vec::new();
        let n = self.data.len();
        let mut t: usize = 0;
        while t < n
            invariant
                t <= n,
                n == self.data@.len(),
                data@.len() == t,
                forall|u: int| 0 <= u < t ==> #[trigger] data@[u] == self.data@[u],
            decreases n - t,
        {
            data.push(self.data[t]);
            t += 1;
        }
        while data.len() < self.columns
            invariant
                n <= data@.len(),
                data@.len() <= self.columns,
                forall|u: int| 0 <= u < n ==> #[trigger] data@[u] == self.data@[u],
                forall|u: int| n <= u < data@.len() ==> #[trigger] data@[u] == 0i64,
            decreases self.columns - data.len(),
        {
            data.push(0i64);
        }
        proof {
            assert(data@.len() == self.columns);
        }
        let result = BandMatrix {
            rows: self.rows,
            columns: self.columns,
            superdiagonals: 0,
            subdiagonals: 0,
            data,
        };
        proof {
            assert(result.diagonals() == 1);
            assert(result.diagonals() * result.columns == result.columns) by (nonlinear_arith)
                requires
                    result.diagonals() == 1,
            ;
            assert(result.wf());
            assert forall|i: int, j: int|
                0 <= i < self.rows && 0 <= j < self.columns implies #[trigger] result.at(i, j)
                == self.at(i, j) by {
                assert(result.diagonals() == 1);
                if i == j {
                    assert(j * 1int == j);
                }
            }
        }
        result
    }

    /// Expand the matrix into its dense representation, by way of its band
    /// form.
    pub fn to_dense(&self) -> (result: Dense)
        requires
            self.wf(),
            self.rows * self.columns <= usize::MAX,
        ensures
            result.wf(),
            result.rows == self.rows,
            result.columns == self.columns,
            forall|i: int, j: int|
                0 <= i < self.rows && 0 <= j < self.columns ==> #[trigger] result.at(i, j)
                    == self.at(i, j),
    {
        let band = self.to_band();
        band.to_dense()
    }
}

} // verus!
