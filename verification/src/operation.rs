//! Arithmetic operations on the matrix representations: transposition,
//! scaling by a diagonal operand, and multiplication into a dense
//! accumulator.

use vstd::prelude::*;

use crate::compressed::Compressed;
use crate::compressed::Format;
use crate::dense::lemma_flat_index;
use crate::dense::Dense;
use crate::diagonal::DiagonalMatrix;
use crate::Error;

verus! {

/// Addition that wraps around on overflow, as a specification value.
pub open spec fn wadd(a: i64, b: i64) -> i64 {
    vstd::wrapping::i64_specs::wrapping_add(a, b)
}

/// Multiplication that wraps around on overflow, as a specification value.
pub open spec fn wmul(a: i64, b: i64) -> i64 {
    vstd::wrapping::i64_specs::wrapping_mul(a, b)
}

/// One accumulation step of the sparse-by-dense product: slot `k` of `a`
/// scattered into column `j` of the accumulator.
pub open spec fn sd_step(a: Compressed, b: Seq<i64>, c: Seq<i64>, j: int, k: int) -> Seq<i64> {
    let t = j * a.rows + a.minor(k);
    c.update(t, wadd(c[t], wmul(a.values@[k], b[j * a.columns + a.major_at(k)])))
}

/// The accumulator after the first `k` slots of `a` have hit column `j`.
pub open spec fn sd_col(a: Compressed, b: Seq<i64>, c: Seq<i64>, j: int, k: int) -> Seq<i64>
    decreases k,
{
    if k <= 0 {
        c
    } else {
        sd_step(a, b, sd_col(a, b, c, j, k - 1), j, k - 1)
    }
}

/// The accumulator after the first `j` columns of the right operand.
pub open spec fn sd_acc(a: Compressed, b: Seq<i64>, c: Seq<i64>, j: int) -> Seq<i64>
    decreases j,
{
    if j <= 0 {
        c
    } else {
        sd_col(a, b, sd_acc(a, b, c, j - 1), j - 1, a.nonzeros as int)
    }
}

/// One accumulation step of the dense-by-sparse product: slot `k` of `b`
/// combined with row `i` of the left operand, into column `j` of the
/// accumulator.
pub open spec fn ds_cell(
    a: Seq<i64>,
    b: Compressed,
    c: Seq<i64>,
    m: int,
    j: int,
    k: int,
    i: int,
) -> Seq<i64> {
    let t = j * m + i;
    c.update(t, wadd(c[t], wmul(b.values@[k], a[b.minor(k) * m + i])))
}

/// The accumulator after slot `k` has hit the first `i` rows of column `j`.
pub open spec fn ds_row(
    a: Seq<i64>,
    b: Compressed,
    c: Seq<i64>,
    m: int,
    j: int,
    k: int,
    i: int,
) -> Seq<i64>
    decreases i,
{
    if i <= 0 {
        c
    } else {
        ds_cell(a, b, ds_row(a, b, c, m, j, k, i - 1), m, j, k, i - 1)
    }
}

/// The accumulator after the slots of slice `j` below position `k` have hit
/// column `j`.
pub open spec fn ds_slice(a: Seq<i64>, b: Compressed, c: Seq<i64>, m: int, j: int, k: int) -> Seq<
    i64,
>
    decreases k,
{
    if k <= 0 || k <= b.off(j) {
        c
    } else {
        ds_row(a, b, ds_slice(a, b, c, m, j, k - 1), m, j, k - 1, m)
    }
}

/// The accumulator after the first `j` slices of the sparse right operand.
pub open spec fn ds_acc(a: Seq<i64>, b: Compressed, c: Seq<i64>, m: int, j: int) -> Seq<i64>
    decreases j,
{
    if j <= 0 {
        c
    } else {
        ds_slice(a, b, ds_acc(a, b, c, m, j - 1), m, j - 1, b.off(j))
    }
}

impl Compressed {
    /// Return the transpose of the matrix, leaving the original untouched.
    /// The result uses the same format; its slices are rebuilt by replaying
    /// every stored slot through the sorted insertion of `set`.
    #[verifier::loop_isolation(false)]
    #[verifier::rlimit(100)]
    pub fn transposed(&self) -> (result: Self)
        requires
            self.wf(),
            self.rows < usize::MAX,
            self.columns < usize::MAX,
        ensures
            result.transpose_of(*self),
    {
        let mut result = Compressed::with_capacity(self.columns, self.rows, self.format, self.nonzeros);
        proof {
            result.lemma_empty();
        }
        let mut it = self.iter();
        let nnz = self.nonzeros;
        while it.taken < nnz
            invariant
                it.wf(),
                it.matrix == self,
                nnz == self.nonzeros,
                result.wf(),
                result.rows == self.columns,
                result.columns == self.rows,
                result.format == self.format,
                result.nonzeros == it.taken,
                forall|i: int, j: int|
                    self.in_bounds(i, j) ==> (#[trigger] result.stored(j, i) <==> (self.stored(
                        i,
                        j,
                    ) && self.slot(i, j) < it.taken)),
                forall|i: int, j: int|
                    self.in_bounds(i, j) && self.stored(i, j) && self.slot(i, j) < it.taken
                        ==> #[trigger] result.entry(j, i) == self.entry(i, j),
            decreases nnz - it.taken,
        {
            let ghost k = it.taken as int;
            match it.next() {
                None => {
                    proof {
                        assert(false);
                    }
                },
                Some(t) => {
                    proof {
                        self.lemma_slot_coords(k);
                    }
                    let ghost before = result;
                    let r = result.set(t.1, t.0, t.2);
                    proof {
                        assert(before.in_bounds(t.1 as int, t.0 as int));
                        assert(result.set_post(before, t.1 as int, t.0 as int, t.2));
                        assert(!before.stored(t.1 as int, t.0 as int)) by {
                            if before.stored(t.1 as int, t.0 as int) {
                                assert(self.slot(self.coord_i(k), self.coord_j(k)) < k);
                                assert(false);
                            }
                        }
                        assert forall|i: int, j: int|
                            self.in_bounds(i, j) implies (#[trigger] result.stored(j, i) <==> (
                        self.stored(i, j) && self.slot(i, j) < k + 1)) by {
                            if i == self.coord_i(k) && j == self.coord_j(k) {
                                assert(result.stored(j, i));
                                assert(self.stored(i, j) && self.slot(i, j) == k);
                            } else {
                                assert(!(j == t.1 as int && i == t.0 as int));
                                assert(result.stored(j, i) == before.stored(j, i));
                                if self.stored(i, j) && self.slot(i, j) == k {
                                    self.stored_slot_is_coord(i, j, k);
                                    assert(false);
                                }
                            }
                        }
                        assert forall|i: int, j: int|
                            self.in_bounds(i, j) && self.stored(i, j) && self.slot(i, j) < k + 1
                                implies #[trigger] result.entry(j, i) == self.entry(i, j) by {
                            if self.slot(i, j) == k {
                                self.stored_slot_is_coord(i, j, k);
                                assert(result.entry(j, i) == t.2);
                            } else {
                                assert(!(j == t.1 as int && i == t.0 as int)) by {
                                    if j == t.1 as int && i == t.0 as int {
                                        self.stored_slot_is_coord(i, j, self.slot(i, j));
                                        assert(false);
                                    }
                                }
                                assert(result.entry(j, i) == before.entry(j, i));
                            }
                        }
                    }
                    let _ = r;
                },
            }
        }
        proof {
            assert forall|i: int, j: int| self.in_bounds(i, j) implies #[trigger] result.stored(
                j,
                i,
            ) == self.stored(i, j) by {
                if self.stored(i, j) {
                    let kk = self.stored_slot_witness(i, j);
                    self.lemma_slot_in_range(self.major_of(i, j), kk);
                }
            }
            assert forall|i: int, j: int| self.in_bounds(i, j) implies #[trigger] result.entry(
                j,
                i,
            ) == self.entry(i, j) by {
                if self.stored(i, j) {
                    let kk = self.stored_slot_witness(i, j);
                    self.lemma_slot_in_range(self.major_of(i, j), kk);
                }
            }
        }
        result
    }

    /// Whether a sparse-by-dense multiplication with these operand sizes is
    /// dimensionally sound: the right operand splits into whole columns and
    /// the accumulator holds the full product.
    pub open spec fn multiply_into_ok(self, blen: int, clen: int) -> bool {
        &&& self.columns > 0
        &&& blen % (self.columns as int) == 0
        &&& clen == self.rows * (blen / (self.columns as int))
    }

    /// Multiply the matrix, as the left operand in compressed-column form,
    /// by a dense right operand given as a flat column-major buffer, adding
    /// each product into the caller-supplied accumulator with wrapping
    /// arithmetic. The accumulator is never cleared: the caller
    /// pre-initializes it. A dimension mismatch is rejected before any
    /// write.
    #[verifier::loop_isolation(false)]
    #[verifier::rlimit(100)]
    pub fn multiply_into(&self, right: &Vec<i64>, result: &mut Vec<i64>) -> (r: Result<(), Error>)
        requires
            self.wf(),
            self.format == Format::Column,
        ensures
            match r {
                Ok(_) => self.multiply_into_ok(right@.len() as int, old(result)@.len() as int)
                    && final(result)@ == sd_acc(
                    *self,
                    right@,
                    old(result)@,
                    right@.len() as int / (self.columns as int),
                ),
                Err(e) => e == Error::DimensionMismatch && !self.multiply_into_ok(
                    right@.len() as int,
                    old(result)@.len() as int,
                ) && final(result)@ == old(result)@,
            },
    {
        let m = self.rows;
        let p = self.columns;
        if p == 0 {
            return Err(Error::DimensionMismatch);
        }
        let n = right.len() / p;
        if right.len() % p != 0 {
            return Err(Error::DimensionMismatch);
        }
        proof {
            vstd::arithmetic::div_mod::lemma_fundamental_div_mod(right@.len() as int, p as int);
        }
        let size_ok = match m.checked_mul(n) {
            Some(s) => s == result.len(),
            None => false,
        };
        if !size_ok {
            proof {
                assert(result.len() <= usize::MAX);
            }
            return Err(Error::DimensionMismatch);
        }
        proof {
            assert((p as int) * (n as int) == right@.len());
        }
        let ghost c0 = result@;
        let mut j: usize = 0;
        while j < n
            invariant
                j <= n,
                result@.len() == c0.len(),
                result@ == sd_acc(*self, right@, c0, j as int),
            decreases n - j,
        {
            proof {
                lemma_flat_index(p as int, n as int, 0, j as int);
                if m > 0 {
                    lemma_flat_index(m as int, n as int, 0, j as int);
                } else {
                    assert((j as int) * (m as int) == 0) by (nonlinear_arith)
                        requires
                            m == 0,
                    ;
                }
            }
            let bo = j * p;
            let co = j * m;
            let ghost base = result@;
            let mut l: usize = 0;
            let mut k = self.offsets[0];
            proof {
                lemma_flat_index(p as int, n as int, 0, j as int);
                assert(sd_col(*self, right@, base, j as int, 0) == base);
            }
            while l < p
                invariant
                    l <= p,
                    k == self.off(l as int),
                    result@.len() == c0.len(),
                    result@ == sd_col(*self, right@, base, j as int, self.off(l as int)),
                decreases p - l,
            {
                let hi = self.offsets[l + 1];
                proof {
                    assert(self.off(l as int) <= self.off(l as int + 1));
                }
                while k < hi
                    invariant
                        self.off(l as int) <= k <= hi,
                        result@.len() == c0.len(),
                        result@ == sd_col(*self, right@, base, j as int, k as int),
                    decreases hi - k,
                {
                    proof {
                        self.lemma_slot_in_range(l as int, k as int);
                        self.lemma_major_at_unique(l as int, k as int);
                        lemma_flat_index(m as int, n as int, self.minor(k as int), j as int);
                        lemma_flat_index(p as int, n as int, l as int, j as int);
                    }
                    let t = co + self.indices[k];
                    let x = result[t];
                    let addend = self.values[k].wrapping_mul(right[bo + l]);
                    result[t] = x.wrapping_add(addend);
                    proof {
                        assert(result@ == sd_step(
                            *self,
                            right@,
                            sd_col(*self, right@, base, j as int, k as int),
                            j as int,
                            k as int,
                        ));
                        assert(result@ == sd_col(*self, right@, base, j as int, k as int + 1));
                    }
                    k += 1;
                }
                l += 1;
            }
            proof {
                assert(result@ == sd_col(*self, right@, base, j as int, self.nonzeros as int));
                assert(result@ == sd_acc(*self, right@, c0, j as int + 1));
            }
            j += 1;
        }
        Ok(())
    }

    /// Multiply the matrix by a diagonal right operand, in place: the matrix
    /// takes the operand's column count, entries outside the new bounds are
    /// dropped, and every remaining entry is scaled, with wrapping
    /// arithmetic, by the diagonal value of its column. A mismatch between
    /// the matrix's columns and the operand's rows leaves the matrix
    /// untouched.
    #[verifier::loop_isolation(false)]
    #[verifier::rlimit(100)]
    pub fn multiply_self(&mut self, right: &DiagonalMatrix) -> (r: Result<(), Error>)
        requires
            old(self).wf(),
            right.wf(),
            old(self).rows < usize::MAX,
            right.columns < usize::MAX,
        ensures
            match r {
                Ok(_) => {
                    &&& old(self).columns == right.rows
                    &&& final(self).wf()
                    &&& final(self).rows == old(self).rows
                    &&& final(self).columns == right.columns
                    &&& final(self).format == old(self).format
                    &&& forall|i: int, j: int|
                        0 <= i < old(self).rows && 0 <= j < right.columns && j < right.rows
                            ==> #[trigger] final(self).stored(i, j) == old(self).stored(i, j)
                    &&& forall|i: int, j: int|
                        0 <= i < old(self).rows && 0 <= j < right.columns && j < right.rows
                            ==> #[trigger] final(self).entry(i, j) == (if old(self).stored(i, j) {
                            wmul(old(self).entry(i, j), right.data@[j])
                        } else {
                            0i64
                        })
                    &&& forall|i: int, j: int|
                        0 <= i < old(self).rows && right.rows <= j < right.columns ==> !(
                        #[trigger] final(self).stored(i, j))
                },
                Err(e) => e == Error::DimensionMismatch && old(self).columns != right.rows
                    && *final(self) == *old(self),
            },
    {
        if self.columns != right.rows {
            return Err(Error::DimensionMismatch);
        }
        let rows = self.rows;
        self.resize(rows, right.columns);
        let ghost m0 = *old(self);
        let ghost mid = *self;
        proof {
            assert forall|l2: int| 0 <= l2 < mid.nonzeros implies 0 <= #[trigger] mid.coord_j(l2)
                < right.data@.len() by {
                mid.lemma_slot_coords(l2);
                if mid.coord_j(l2) >= m0.columns {
                    assert(!mid.stored(mid.coord_i(l2), mid.coord_j(l2)));
                    assert(false);
                }
            }
        }
        let majors = self.offsets.len() - 1;
        let mut major: usize = 0;
        let mut k: usize = 0;
        while major < majors
            invariant
                major <= majors,
                k == mid.off(major as int),
                self.rows == mid.rows,
                self.columns == mid.columns,
                self.format == mid.format,
                self.nonzeros == mid.nonzeros,
                self.indices == mid.indices,
                self.offsets == mid.offsets,
                self.values@.len() == mid.values@.len(),
                forall|l2: int|
                    0 <= l2 < k ==> #[trigger] self.values@[l2] == wmul(
                        mid.values@[l2],
                        right.data@[mid.coord_j(l2)],
                    ),
                forall|l2: int|
                    k <= l2 < mid.nonzeros ==> #[trigger] self.values@[l2] == mid.values@[l2],
            decreases majors - major,
        {
            let hi = self.offsets[major + 1];
            proof {
                assert(mid.off(major as int) <= mid.off(major as int + 1));
            }
            while k < hi
                invariant
                    mid.off(major as int) <= k <= hi,
                    self.rows == mid.rows,
                    self.columns == mid.columns,
                    self.format == mid.format,
                    self.nonzeros == mid.nonzeros,
                    self.indices == mid.indices,
                    self.offsets == mid.offsets,
                    self.values@.len() == mid.values@.len(),
                    forall|l2: int|
                        0 <= l2 < k ==> #[trigger] self.values@[l2] == wmul(
                            mid.values@[l2],
                            right.data@[mid.coord_j(l2)],
                        ),
                    forall|l2: int|
                        k <= l2 < mid.nonzeros ==> #[trigger] self.values@[l2] == mid.values@[l2],
                decreases hi - k,
            {
                proof {
                    mid.lemma_slot_in_range(major as int, k as int);
                    mid.lemma_major_at_unique(major as int, k as int);
                    mid.lemma_slot_coords(k as int);
                }
                let d_idx = match self.format {
                    Format::Column => major,
                    Format::Row => self.indices[k],
                };
                let x = self.values[k];
                self.values[k] = x.wrapping_mul(right.data[d_idx]);
                k += 1;
            }
            major += 1;
        }
        proof {
            Self::lemma_scale_assemble(mid, *self, right.data@);
        }
        Ok(())
    }

    /// Scaling the values of a matrix slot by slot, by the diagonal value of
    /// each slot's major index, preserves well-formedness and scales every
    /// entry in place.
    #[verifier::rlimit(100)]
    proof fn lemma_scale_assemble(mid: Self, mm: Self, d: Seq<i64>)
        requires
            mid.wf(),
            mm.rows == mid.rows,
            mm.columns == mid.columns,
            mm.format == mid.format,
            mm.nonzeros == mid.nonzeros,
            mm.indices == mid.indices,
            mm.offsets == mid.offsets,
            mm.values@.len() == mid.values@.len(),
            forall|l2: int|
                0 <= l2 < mid.nonzeros ==> #[trigger] mm.values@[l2] == wmul(
                    mid.values@[l2],
                    d[mid.coord_j(l2)],
                ),
            forall|l2: int| 0 <= l2 < mid.nonzeros ==> 0 <= #[trigger] mid.coord_j(l2) < d.len(),
        ensures
            mm.wf(),
            forall|i: int, j: int|
                mid.in_bounds(i, j) ==> #[trigger] mm.stored(i, j) == mid.stored(i, j),
            forall|i: int, j: int|
                mid.in_bounds(i, j) && 0 <= j < d.len() ==> #[trigger] mm.entry(i, j) == (if
                mid.stored(i, j) {
                    wmul(mid.entry(i, j), d[j])
                } else {
                    0i64
                }),
    {
        assert forall|u: int| 0 <= u < mm.offsets@.len() implies #[trigger] mm.off(u) == mid.off(
            u,
        ) by {}
        assert forall|l: int| 0 <= l < mm.indices@.len() implies #[trigger] mm.minor(l)
            == mid.minor(l) by {}
        assert(mm.wf());
        assert forall|i: int, j: int| mid.in_bounds(i, j) implies #[trigger] mm.stored(i, j)
            == mid.stored(i, j) by {
            if mid.stored(i, j) {
                let kk = mid.stored_slot_witness(i, j);
                assert(mm.slot_in_slice(mm.major_of(i, j), kk) && mm.minor(kk) == mm.minor_of(
                    i,
                    j,
                ));
                assert(mm.stored(i, j));
            }
            if mm.stored(i, j) {
                let kk = mm.stored_slot_witness(i, j);
                assert(mid.slot_in_slice(mid.major_of(i, j), kk) && mid.minor(kk) == mid.minor_of(
                    i,
                    j,
                ));
                assert(mid.stored(i, j));
            }
        }
        assert forall|i: int, j: int|
            mid.in_bounds(i, j) && 0 <= j < d.len() implies #[trigger] mm.entry(i, j) == (if
        mid.stored(i, j) {
            wmul(mid.entry(i, j), d[j])
        } else {
            0i64
        }) by {
            if mid.stored(i, j) {
                let kk = mid.stored_slot_witness(i, j);
                mid.lemma_slot_in_range(mid.major_of(i, j), kk);
                mid.stored_slot_is_coord(i, j, kk);
                mm.lemma_entry_witness(i, j, kk);
            }
        }
    }

    /// Multiply the matrix by a diagonal right operand, returning the scaled
    /// matrix and leaving the original untouched.
    pub fn multiply(&self, right: &DiagonalMatrix) -> (r: Result<Self, Error>)
        requires
            self.wf(),
            right.wf(),
            self.rows < usize::MAX,
            right.columns < usize::MAX,
        ensures
            match r {
                Ok(mm) => {
                    &&& self.columns == right.rows
                    &&& mm.wf()
                    &&& mm.rows == self.rows
                    &&& mm.columns == right.columns
                    &&& mm.format == self.format
                    &&& forall|i: int, j: int|
                        0 <= i < self.rows && 0 <= j < right.columns && j < right.rows
                            ==> #[trigger] mm.stored(i, j) == self.stored(i, j)
                    &&& forall|i: int, j: int|
                        0 <= i < self.rows && 0 <= j < right.columns && j < right.rows
                            ==> #[trigger] mm.entry(i, j) == (if self.stored(i, j) {
                            wmul(self.entry(i, j), right.data@[j])
                        } else {
                            0i64
                        })
                    &&& forall|i: int, j: int|
                        0 <= i < self.rows && right.rows <= j < right.columns ==> !(
                        #[trigger] mm.stored(i, j))
                },
                Err(e) => e == Error::DimensionMismatch && self.columns != right.rows,
            },
    {
        let mut result = Compressed {
            rows: self.rows,
            columns: self.columns,
            nonzeros: self.nonzeros,
            format: self.format,
            values: self.values.clone(),
            indices: self.indices.clone(),
            offsets: self.offsets.clone(),
        };
        proof {
            assert forall|t: int| 0 <= t < self.values@.len() implies result.values@[t]
                == self.values@[t] by {}
            assert forall|t: int| 0 <= t < self.indices@.len() implies result.indices@[t]
                == self.indices@[t] by {}
            assert forall|t: int| 0 <= t < self.offsets@.len() implies result.offsets@[t]
                == self.offsets@[t] by {}
            assert(result.values@ =~= self.values@);
            assert(result.indices@ =~= self.indices@);
            assert(result.offsets@ =~= self.offsets@);
            Self::lemma_same_views(*self, result);
        }
        let ghost rc = result;
        match result.multiply_self(right) {
            Ok(_) => {
                proof {
                    assert forall|i: int, j: int|
                        0 <= i < self.rows && 0 <= j < right.columns && j < right.rows implies (
                    #[trigger] result.stored(i, j) == self.stored(i, j) && #[trigger] result.entry(
                        i,
                        j,
                    ) == (if self.stored(i, j) {
                        wmul(self.entry(i, j), right.data@[j])
                    } else {
                        0i64
                    })) by {
                        assert(rc.stored(i, j) == self.stored(i, j));
                        assert(rc.entry(i, j) == self.entry(i, j));
                    }
                }
                Ok(result)
            },
            Err(e) => Err(e),
        }
    }

    /// Matrices with the same dimensions, format and array contents agree on
    /// the whole model.
    proof fn lemma_same_views(a: Self, b: Self)
        requires
            a.wf(),
            b.rows == a.rows,
            b.columns == a.columns,
            b.format == a.format,
            b.nonzeros == a.nonzeros,
            b.values@ == a.values@,
            b.indices@ == a.indices@,
            b.offsets@ == a.offsets@,
        ensures
            b.wf(),
            forall|i: int, j: int|
                a.in_bounds(i, j) ==> #[trigger] b.stored(i, j) == a.stored(i, j),
            forall|i: int, j: int| a.in_bounds(i, j) ==> #[trigger] b.entry(i, j) == a.entry(i, j),
    {
        assert forall|u: int| 0 <= u < b.offsets@.len() implies #[trigger] b.off(u) == a.off(
            u,
        ) by {}
        assert forall|l: int| 0 <= l < b.indices@.len() implies #[trigger] b.minor(l) == a.minor(
            l,
        ) by {}
        assert(b.wf());
        assert forall|i: int, j: int| a.in_bounds(i, j) implies #[trigger] b.stored(i, j)
            == a.stored(i, j) by {
            if a.stored(i, j) {
                let kk = a.stored_slot_witness(i, j);
                a.lemma_slot_in_range(a.major_of(i, j), kk);
                assert(b.slot_in_slice(b.major_of(i, j), kk) && b.minor(kk) == b.minor_of(i, j));
                b.lemma_entry_witness(i, j, kk);
            }
            if b.stored(i, j) {
                let kk = b.stored_slot_witness(i, j);
                assert(a.slot_in_slice(a.major_of(i, j), kk) && a.minor(kk) == a.minor_of(i, j));
                assert(a.stored(i, j));
            }
        }
        assert forall|i: int, j: int| a.in_bounds(i, j) implies #[trigger] b.entry(i, j)
            == a.entry(i, j) by {
            if a.stored(i, j) {
                let kk = a.stored_slot_witness(i, j);
                a.lemma_slot_in_range(a.major_of(i, j), kk);
                assert(b.slot_in_slice(b.major_of(i, j), kk) && b.minor(kk) == b.minor_of(i, j));
                b.lemma_entry_witness(i, j, kk);
            }
        }
    }

    /// The witness behind a `stored` coordinate, with its position pinned.
    proof fn stored_slot_witness(self, i: int, j: int) -> (k: int)
        requires
            self.wf(),
            0 <= self.major_of(i, j) < self.major_dim(),
            self.stored(i, j),
        ensures
            k == self.slot(i, j),
            self.slot_in_slice(self.major_of(i, j), k),
            self.minor(k) == self.minor_of(i, j),
            self.entry(i, j) == self.values@[k],
    {
        let k = choose|k: int|
            #![trigger self.minor(k)]
            self.slot_in_slice(self.major_of(i, j), k) && self.minor(k) == self.minor_of(i, j);
        self.lemma_entry_witness(i, j, k);
        k
    }

    /// A coordinate whose slot is `k` is exactly the coordinate of slot `k`.
    proof fn stored_slot_is_coord(self, i: int, j: int, k: int)
        requires
            self.wf(),
            0 <= k < self.nonzeros,
            self.in_bounds(i, j),
            self.stored(i, j),
            self.slot(i, j) == k,
        ensures
            i == self.coord_i(k),
            j == self.coord_j(k),
    {
        let kk = self.stored_slot_witness(i, j);
        self.lemma_slot_coords(k);
        self.lemma_major_at_unique(self.major_of(i, j), k);
    }
}

impl Dense {
    /// Multiply the matrix by a compressed right operand in
    /// compressed-column form, adding each product into the caller-supplied
    /// accumulator with wrapping arithmetic. The accumulator is never
    /// cleared: the caller pre-initializes it. A dimension mismatch is
    /// rejected before any write.
    #[verifier::loop_isolation(false)]
    #[verifier::rlimit(100)]
    pub fn multiply_into(&self, right: &Compressed, result: &mut Vec<i64>) -> (r: Result<
        (),
        Error,
    >)
        requires
            self.wf(),
            right.wf(),
            right.format == Format::Column,
        ensures
            match r {
                Ok(_) => self.columns == right.rows && old(result)@.len() == self.rows
                    * right.columns && final(result)@ == ds_acc(
                    self.values@,
                    *right,
                    old(result)@,
                    self.rows as int,
                    right.columns as int,
                ),
                Err(e) => e == Error::DimensionMismatch && !(self.columns == right.rows && old(
                    result,
                )@.len() == self.rows * right.columns) && final(result)@ == old(result)@,
            },
    {
        let m = self.rows;
        let p = self.columns;
        let n = right.columns;
        if p != right.rows {
            return Err(Error::DimensionMismatch);
        }
        let size_ok = match m.checked_mul(n) {
            Some(s) => s == result.len(),
            None => false,
        };
        if !size_ok {
            proof {
                assert(result.len() <= usize::MAX);
            }
            return Err(Error::DimensionMismatch);
        }
        let ghost c0 = result@;
        let mut j: usize = 0;
        while j < n
            invariant
                j <= n,
                result@.len() == c0.len(),
                result@ == ds_acc(self.values@, *right, c0, m as int, j as int),
            decreases n - j,
        {
            proof {
                if m > 0 {
                    lemma_flat_index(m as int, n as int, 0, j as int);
                } else {
                    assert((j as int) * (m as int) == 0) by (nonlinear_arith)
                        requires
                            m == 0,
                    ;
                }
            }
            let co = j * m;
            let ghost base = result@;
            let hi = right.offsets[j + 1];
            let mut k = right.offsets[j];
            proof {
                assert(right.off(j as int) <= right.off(j as int + 1));
                assert(ds_slice(self.values@, *right, base, m as int, j as int, right.off(j as int))
                    == base);
            }
            while k < hi
                invariant
                    right.off(j as int) <= k <= hi,
                    result@.len() == c0.len(),
                    result@ == ds_slice(self.values@, *right, base, m as int, j as int, k as int),
                decreases hi - k,
            {
                proof {
                    right.lemma_slot_in_range(j as int, k as int);
                }
                proof {
                    assert(self.values.len() <= usize::MAX);
                    if m > 0 {
                        lemma_flat_index(m as int, p as int, 0, right.minor(k as int));
                    } else {
                        assert(right.minor(k as int) * (m as int) == 0) by (nonlinear_arith)
                            requires
                                m == 0,
                        ;
                    }
                }
                let aoff = right.indices[k] * m;
                let v = right.values[k];
                let ghost rowbase = result@;
                let mut i: usize = 0;
                proof {
                    assert(ds_row(self.values@, *right, rowbase, m as int, j as int, k as int, 0)
                        == rowbase);
                }
                while i < m
                    invariant
                        i <= m,
                        result@.len() == c0.len(),
                        result@ == ds_row(
                            self.values@,
                            *right,
                            rowbase,
                            m as int,
                            j as int,
                            k as int,
                            i as int,
                        ),
                    decreases m - i,
                {
                    proof {
                        lemma_flat_index(m as int, n as int, i as int, j as int);
                        lemma_flat_index(m as int, p as int, i as int, right.minor(k as int));
                    }
                    let t = co + i;
                    let x = result[t];
                    let addend = v.wrapping_mul(self.values[aoff + i]);
                    result[t] = x.wrapping_add(addend);
                    proof {
                        assert(result@ == ds_cell(
                            self.values@,
                            *right,
                            ds_row(
                                self.values@,
                                *right,
                                rowbase,
                                m as int,
                                j as int,
                                k as int,
                                i as int,
                            ),
                            m as int,
                            j as int,
                            k as int,
                            i as int,
                        ));
                    }
                    i += 1;
                }
                proof {
                    assert(result@ == ds_slice(
                        self.values@,
                        *right,
                        base,
                        m as int,
                        j as int,
                        k as int + 1,
                    ));
                }
                k += 1;
            }
            proof {
                assert(result@ == ds_acc(self.values@, *right, c0, m as int, j as int + 1));
            }
            j += 1;
        }
        Ok(())
    }
}

/// Transposing twice reproduces the matrix: the dimensions, the format and
/// the slot pattern come back, and every coordinate holds its original
/// value.
pub proof fn lemma_transpose_involution(m: Compressed, t: Compressed, u: Compressed)
    requires
        m.wf(),
        t.transpose_of(m),
        u.transpose_of(t),
    ensures
        u.rows == m.rows,
        u.columns == m.columns,
        u.format == m.format,
        u.nonzeros == m.nonzeros,
        forall|i: int, j: int| m.in_bounds(i, j) ==> #[trigger] u.stored(i, j) == m.stored(i, j),
        forall|i: int, j: int| m.in_bounds(i, j) ==> #[trigger] u.entry(i, j) == m.entry(i, j),
{
    assert forall|i: int, j: int| m.in_bounds(i, j) implies #[trigger] u.stored(i, j) == m.stored(
        i,
        j,
    ) && u.entry(i, j) == m.entry(i, j) by {
        assert(t.in_bounds(j, i));
        assert(t.stored(j, i) == m.stored(i, j));
        assert(u.stored(i, j) == t.stored(j, i));
        assert(t.entry(j, i) == m.entry(i, j));
        assert(u.entry(i, j) == t.entry(j, i));
    }
}

} // verus!
