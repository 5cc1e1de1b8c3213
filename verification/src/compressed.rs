//! Compressed sparse matrices.
//!
//! The storage suits generic sparse matrices. Data are stored in either the
//! compressed-column format or the compressed-row format: a major dimension is
//! indexed by `offsets`, and within the slice of one major index the entries
//! are kept sorted by their minor index.

use vstd::prelude::*;

use crate::dense::Dense;
use crate::Error;

verus! {

/// A format of a compressed matrix.
#[derive(Clone, Copy, Debug, PartialEq, Eq, Structural)]
pub enum Format {
    /// The compressed-column format: columns are the major dimension.
    Column,
    /// The compressed-row format: rows are the major dimension.
    Row,
}

impl Format {
    /// Return the other format.
    pub fn flip(&self) -> (result: Self)
        ensures
            result == (match self {
                Format::Column => Format::Row,
                Format::Row => Format::Column,
            }),
    {
        match *self {
            Format::Column => Format::Row,
            Format::Row => Format::Column,
        }
    }
}

/// A compressed matrix.
///
/// The structural invariant is `wf`: `values` and `indices` hold one element
/// per stored slot, `offsets` delimits the slice of each major index, and
/// within one slice the minor indices grow strictly. A slot may hold a
/// numeric zero: `nonzeros` counts slots, not non-zero values.
#[derive(Clone, Debug, PartialEq)]
pub struct Compressed {
    /// The number of rows.
    pub rows: usize,
    /// The number of columns.
    pub columns: usize,
    /// The number of stored slots.
    pub nonzeros: usize,
    /// The storage format.
    pub format: Format,
    /// The values of the stored slots.
    pub values: Vec<i64>,
    /// The minor index of each stored slot: the row for `Format::Column` and
    /// the column for `Format::Row`.
    pub indices: Vec<usize>,
    /// The start of each major index's slice in `values` and `indices`, with
    /// one extra element that always equals `nonzeros`.
    pub offsets: Vec<usize>,
}

impl Compressed {
    /// The size of the major dimension: the one indexed by `offsets`.
    pub open spec fn major_dim(self) -> int {
        match self.format {
            Format::Column => self.columns as int,
            Format::Row => self.rows as int,
        }
    }

    /// The size of the minor dimension: the one stored in `indices`.
    pub open spec fn minor_dim(self) -> int {
        match self.format {
            Format::Column => self.rows as int,
            Format::Row => self.columns as int,
        }
    }

    /// The major index of the coordinate (`i`, `j`).
    pub open spec fn major_of(self, i: int, j: int) -> int {
        match self.format {
            Format::Column => j,
            Format::Row => i,
        }
    }

    /// The minor index of the coordinate (`i`, `j`).
    pub open spec fn minor_of(self, i: int, j: int) -> int {
        match self.format {
            Format::Column => i,
            Format::Row => j,
        }
    }

    /// The offset at position `m`, as a mathematical integer.
    pub open spec fn off(self, m: int) -> int {
        self.offsets@[m] as int
    }

    /// The minor index of slot `k`, as a mathematical integer.
    pub open spec fn minor(self, k: int) -> int {
        self.indices@[k] as int
    }

    /// The structural invariant.
    pub open spec fn wf(self) -> bool {
        &&& self.values@.len() == self.nonzeros
        &&& self.indices@.len() == self.nonzeros
        &&& self.offsets@.len() == self.major_dim() + 1
        &&& self.off(0) == 0
        &&& self.off(self.major_dim()) == self.nonzeros
        &&& forall|m1: int, m2: int|
            #![trigger self.off(m1), self.off(m2)]
            0 <= m1 <= m2 <= self.major_dim() ==> self.off(m1) <= self.off(m2)
        &&& forall|m: int, k1: int, k2: int|
            #![trigger self.off(m), self.minor(k1), self.minor(k2)]
            0 <= m < self.major_dim() && self.off(m) <= k1 < k2 && k2 < self.off(m + 1)
                ==> self.minor(k1) < self.minor(k2)
        &&& forall|k: int| 0 <= k < self.nonzeros ==> #[trigger] self.minor(k) < self.minor_dim()
    }

    /// Whether the coordinate (`i`, `j`) lies within the dimensions.
    pub open spec fn in_bounds(self, i: int, j: int) -> bool {
        0 <= i < self.rows && 0 <= j < self.columns
    }

    /// Whether slot `k` belongs to the slice of major index `m`.
    pub open spec fn slot_in_slice(self, m: int, k: int) -> bool {
        self.off(m) <= k < self.off(m + 1)
    }

    /// Whether a slot is stored at the coordinate (`i`, `j`).
    pub open spec fn stored(self, i: int, j: int) -> bool {
        exists|k: int|
            #![trigger self.minor(k)]
            self.slot_in_slice(self.major_of(i, j), k) && self.minor(k) == self.minor_of(i, j)
    }

    /// The slot stored at the coordinate (`i`, `j`); meaningful only when
    /// `stored(i, j)` holds.
    pub open spec fn slot(self, i: int, j: int) -> int {
        choose|k: int|
            #![trigger self.minor(k)]
            self.slot_in_slice(self.major_of(i, j), k) && self.minor(k) == self.minor_of(i, j)
    }

    /// The element at the coordinate (`i`, `j`): the value of its slot when
    /// one is stored, and zero otherwise.
    pub open spec fn entry(self, i: int, j: int) -> i64 {
        if self.stored(i, j) {
            self.values@[self.slot(i, j)]
        } else {
            0i64
        }
    }

    /// Every slot of a valid slice is a valid position in `values` and
    /// `indices`.
    pub proof fn lemma_slot_in_range(self, m: int, k: int)
        requires
            self.wf(),
            0 <= m < self.major_dim(),
            self.slot_in_slice(m, k),
        ensures
            0 <= k < self.nonzeros,
    {
        assert(self.off(0) <= self.off(m));
        assert(self.off(m + 1) <= self.off(self.major_dim()));
    }

    /// Two slots of one slice with the same minor index are the same slot.
    pub proof fn lemma_slot_unique(self, m: int, k1: int, k2: int)
        requires
            self.wf(),
            0 <= m < self.major_dim(),
            self.slot_in_slice(m, k1),
            self.slot_in_slice(m, k2),
            self.minor(k1) == self.minor(k2),
        ensures
            k1 == k2,
    {
    }

    /// A slot belongs to the slice of at most one major index.
    pub proof fn lemma_slices_disjoint(self, m1: int, m2: int, k: int)
        requires
            self.wf(),
            0 <= m1 < self.major_dim(),
            0 <= m2 < self.major_dim(),
            m1 != m2,
            self.slot_in_slice(m1, k),
        ensures
            !self.slot_in_slice(m2, k),
    {
        if m1 < m2 {
            assert(self.off(m1 + 1) <= self.off(m2));
        } else {
            assert(self.off(m2 + 1) <= self.off(m1));
        }
    }

    /// A slot with the sought minor index pins `stored`, `slot` and `entry`.
    pub proof fn lemma_entry_witness(self, i: int, j: int, k: int)
        requires
            self.wf(),
            0 <= self.major_of(i, j) < self.major_dim(),
            self.slot_in_slice(self.major_of(i, j), k),
            self.minor(k) == self.minor_of(i, j),
        ensures
            self.stored(i, j),
            self.slot(i, j) == k,
            self.entry(i, j) == self.values@[k],
    {
        assert(self.stored(i, j));
        self.lemma_slot_unique(self.major_of(i, j), k, self.slot(i, j));
    }

    /// A matrix with no stored slot holds a zero at every coordinate.
    pub proof fn lemma_empty(self)
        requires
            self.wf(),
            self.nonzeros == 0,
        ensures
            forall|i: int, j: int|
                self.in_bounds(i, j) ==> !self.stored(i, j) && self.entry(i, j) == 0i64,
    {
        assert forall|i: int, j: int| self.in_bounds(i, j) implies !self.stored(i, j) && self.entry(
            i,
            j,
        ) == 0i64 by {
            if self.stored(i, j) {
                let k = self.slot(i, j);
                self.lemma_slot_in_range(self.major_of(i, j), k);
            }
        }
    }

    /// Create a zero matrix.
    pub fn new(rows: usize, columns: usize, format: Format) -> (result: Self)
        requires
            rows < usize::MAX,
            columns < usize::MAX,
        ensures
            result.wf(),
            result.rows == rows,
            result.columns == columns,
            result.format == format,
            result.nonzeros == 0,
    {
        Compressed::with_capacity(rows, columns, format, 0)
    }

    /// Create a zero matrix with a specific capacity.
    pub fn with_capacity(rows: usize, columns: usize, format: Format, capacity: usize) -> (result:
        Self)
        requires
            rows < usize::MAX,
            columns < usize::MAX,
        ensures
            result.wf(),
            result.rows == rows,
            result.columns == columns,
            result.format == format,
            result.nonzeros == 0,
    {
        let majors = match format {
            Format::Column => columns,
            Format::Row => rows,
        };
        let result = Compressed {
            rows,
            columns,
            nonzeros: 0,
            format,
            values: Vec::with_capacity(capacity),
            indices: Vec::with_capacity(capacity),
            offsets: vec![0usize; majors + 1],
        };
        result
    }

    /// Create a zero matrix in the compressed-column format.
    pub fn zero(rows: usize, columns: usize) -> (result: Self)
        requires
            rows < usize::MAX,
            columns < usize::MAX,
        ensures
            result.wf(),
            result.rows == rows,
            result.columns == columns,
            result.format == Format::Column,
            result.nonzeros == 0,
    {
        Compressed::new(rows, columns, Format::Column)
    }

    /// Scan the slice of `major` for `minor`: the position of the first slot
    /// whose minor index is at least `minor`, and whether it is an exact
    /// match.
    fn locate(&self, major: usize, minor: usize) -> (result: (usize, bool))
        requires
            self.wf(),
            major < self.major_dim(),
        ensures
            ({
                let (k, found) = result;
                &&& self.off(major as int) <= k <= self.off(major as int + 1)
                &&& forall|l: int|
                    self.off(major as int) <= l < k ==> #[trigger] self.minor(l) < minor
                &&& found <==> (k < self.off(major as int + 1) && self.minor(k as int) == minor)
                &&& (!found && k < self.off(major as int + 1)) ==> self.minor(k as int) > minor
            }),
    {
        let lo = self.offsets[major];
        let hi = self.offsets[major + 1];
        proof {
            assert(self.off(major as int) <= self.off(major as int + 1));
        }
        let mut k = lo;
        while k < hi
            invariant
                self.wf(),
                major < self.major_dim(),
                lo == self.off(major as int),
                hi == self.off(major as int + 1),
                lo <= k <= hi,
                forall|l: int| lo <= l < k ==> #[trigger] self.minor(l) < minor,
            decreases hi - k,
        {
            proof {
                self.lemma_slot_in_range(major as int, k as int);
            }
            if self.indices[k] == minor {
                return (k, true);
            }
            if self.indices[k] > minor {
                return (k, false);
            }
            k += 1;
        }
        (k, false)
    }

    /// No slot of the slice of `major` holds `minor` when a scan has passed
    /// the whole range below `k` and found only smaller minor indices, and
    /// the slot at `k`, if any, holds a greater one.
    proof fn lemma_scan_absent(self, i: int, j: int, k: int)
        requires
            self.wf(),
            0 <= self.major_of(i, j) < self.major_dim(),
            self.off(self.major_of(i, j)) <= k <= self.off(self.major_of(i, j) + 1),
            forall|l: int|
                self.off(self.major_of(i, j)) <= l < k ==> #[trigger] self.minor(l) < self.minor_of(
                    i,
                    j,
                ),
            k < self.off(self.major_of(i, j) + 1) ==> self.minor(k) > self.minor_of(i, j),
        ensures
            !self.stored(i, j),
    {
        let m = self.major_of(i, j);
        let mn = self.minor_of(i, j);
        assert forall|l: int| self.slot_in_slice(m, l) implies #[trigger] self.minor(l) != mn by {
            if l > k {
                assert(self.minor(k) < self.minor(l));
            }
        }
    }

    /// Read an element. The coordinate must lie within the dimensions;
    /// otherwise the matrix is left untouched and an error is returned.
    pub fn get(&self, i: usize, j: usize) -> (result: Result<i64, Error>)
        requires
            self.wf(),
        ensures
            match result {
                Ok(v) => self.in_bounds(i as int, j as int) && v == self.entry(i as int, j as int),
                Err(e) => e == Error::OutOfBounds && !self.in_bounds(i as int, j as int),
            },
    {
        if i >= self.rows || j >= self.columns {
            return Err(Error::OutOfBounds);
        }
        let (major, minor) = match self.format {
            Format::Column => (j, i),
            Format::Row => (i, j),
        };
        let (k, found) = self.locate(major, minor);
        if found {
            proof {
                self.lemma_slot_in_range(major as int, k as int);
                self.lemma_entry_witness(i as int, j as int, k as int);
            }
            Ok(self.values[k])
        } else {
            proof {
                self.lemma_scan_absent(i as int, j as int, k as int);
            }
            Ok(0i64)
        }
    }

    /// The relation between a matrix `m` and the matrix `self` that results
    /// from assigning the value `v` at the coordinate (`i`, `j`): the slot at
    /// that coordinate holds `v`, every other coordinate is untouched, and a
    /// new slot appears only when none was stored there before.
    pub open spec fn set_post(self, m: Self, i: int, j: int, v: i64) -> bool {
        &&& self.wf()
        &&& self.rows == m.rows
        &&& self.columns == m.columns
        &&& self.format == m.format
        &&& self.nonzeros == m.nonzeros + (if m.stored(i, j) {
            0int
        } else {
            1int
        })
        &&& self.stored(i, j)
        &&& self.entry(i, j) == v
        &&& forall|r: int, c: int|
            #![trigger self.stored(r, c)]
            #![trigger self.entry(r, c)]
            m.in_bounds(r, c) && !(r == i && c == j) ==> self.stored(r, c) == m.stored(r, c)
                && self.entry(r, c) == m.entry(r, c)
    }

    /// The relation between a matrix and its state after overwriting the
    /// value of the slot `k`, which holds the coordinate (`i`, `j`).
    spec fn overwrite_shape(m0: Self, mm: Self, i: int, j: int, v: i64, k: int) -> bool {
        &&& m0.wf()
        &&& m0.in_bounds(i, j)
        &&& mm.rows == m0.rows
        &&& mm.columns == m0.columns
        &&& mm.format == m0.format
        &&& mm.nonzeros == m0.nonzeros
        &&& mm.indices == m0.indices
        &&& mm.offsets == m0.offsets
        &&& mm.values@ == m0.values@.update(k, v)
        &&& m0.slot_in_slice(m0.major_of(i, j), k)
        &&& m0.minor(k) == m0.minor_of(i, j)
    }

    /// Overwriting a slot in place preserves well-formedness.
    proof fn lemma_overwrite_wf(m0: Self, mm: Self, i: int, j: int, v: i64, k: int)
        requires
            Self::overwrite_shape(m0, mm, i, j, v, k),
        ensures
            mm.wf(),
            forall|u: int| 0 <= u < mm.offsets@.len() ==> #[trigger] mm.off(u) == m0.off(u),
            forall|l: int| 0 <= l < mm.indices@.len() ==> #[trigger] mm.minor(l) == m0.minor(l),
    {
        assert forall|u: int| 0 <= u < mm.offsets@.len() implies #[trigger] mm.off(u) == m0.off(
            u,
        ) by {}
        assert forall|l: int| 0 <= l < mm.indices@.len() implies #[trigger] mm.minor(l)
            == m0.minor(l) by {}
        assert(mm.wf());
    }

    /// Overwriting the slot of (`i`, `j`) leaves every other coordinate
    /// untouched.
    proof fn lemma_overwrite_preserve(
        m0: Self,
        mm: Self,
        i: int,
        j: int,
        v: i64,
        k: int,
        r: int,
        c: int,
    )
        requires
            Self::overwrite_shape(m0, mm, i, j, v, k),
            mm.wf(),
            m0.in_bounds(r, c),
            !(r == i && c == j),
        ensures
            mm.stored(r, c) == m0.stored(r, c),
            mm.entry(r, c) == m0.entry(r, c),
    {
        let mr = m0.major_of(r, c);
        let nr = m0.minor_of(r, c);
        assert forall|l: int| 0 <= l < mm.indices@.len() implies #[trigger] mm.minor(l)
            == m0.minor(l) by {}
        if m0.stored(r, c) {
            let kk = m0.stored_slot_helper(r, c);
            m0.lemma_entry_witness(r, c, kk);
            m0.lemma_slot_in_range(mr, kk);
            mm.lemma_entry_witness(r, c, kk);
            if kk == k {
                if mr != m0.major_of(i, j) {
                    m0.lemma_slices_disjoint(mr, m0.major_of(i, j), kk);
                }
                assert(false);
            }
            assert(mm.values@[kk] == m0.values@[kk]);
        } else {
            if mm.stored(r, c) {
                let kk = mm.stored_slot_helper(r, c);
                m0.lemma_entry_witness(r, c, kk);
                assert(false);
            }
        }
    }

    /// Overwriting the value of an existing slot realizes `set_post`.
    proof fn lemma_overwrite_post(m0: Self, mm: Self, i: int, j: int, v: i64, k: int)
        requires
            Self::overwrite_shape(m0, mm, i, j, v, k),
        ensures
            mm.set_post(m0, i, j, v),
    {
        Self::lemma_overwrite_wf(m0, mm, i, j, v, k);
        m0.lemma_slot_in_range(m0.major_of(i, j), k);
        m0.lemma_entry_witness(i, j, k);
        mm.lemma_entry_witness(i, j, k);
        assert forall|r: int, c: int|
            m0.in_bounds(r, c) && !(r == i && c == j) implies #[trigger] mm.stored(r, c)
            == m0.stored(r, c) by {
            Self::lemma_overwrite_preserve(m0, mm, i, j, v, k, r, c);
        }
        assert forall|r: int, c: int|
            m0.in_bounds(r, c) && !(r == i && c == j) implies #[trigger] mm.entry(r, c)
            == m0.entry(r, c) by {
            Self::lemma_overwrite_preserve(m0, mm, i, j, v, k, r, c);
        }
    }

    /// The relation between a matrix and its state after inserting a fresh
    /// slot for the coordinate (`i`, `j`) at the sorted position `k` of its
    /// slice.
    spec fn insert_shape(m0: Self, mm: Self, i: int, j: int, v: i64, k: int, mn_x: usize) -> bool {
        &&& m0.wf()
        &&& m0.in_bounds(i, j)
        &&& mn_x as int == m0.minor_of(i, j)
        &&& mm.rows == m0.rows
        &&& mm.columns == m0.columns
        &&& mm.format == m0.format
        &&& mm.nonzeros == m0.nonzeros + 1
        &&& mm.values@ == m0.values@.insert(k, v)
        &&& mm.indices@ == m0.indices@.insert(k, mn_x)
        &&& mm.offsets@.len() == m0.offsets@.len()
        &&& forall|u: int| 0 <= u <= m0.major_of(i, j) ==> #[trigger] mm.off(u) == m0.off(u)
        &&& forall|u: int|
            m0.major_of(i, j) < u <= m0.major_dim() ==> #[trigger] mm.off(u) == m0.off(u) + 1
        &&& m0.off(m0.major_of(i, j)) <= k <= m0.off(m0.major_of(i, j) + 1)
        &&& forall|l: int|
            m0.off(m0.major_of(i, j)) <= l < k ==> #[trigger] m0.minor(l) < m0.minor_of(i, j)
        &&& (k < m0.off(m0.major_of(i, j) + 1) ==> m0.minor(k) > m0.minor_of(i, j))
    }

    /// The pointwise content of the arrays after an insertion.
    proof fn lemma_insert_pointwise(m0: Self, mm: Self, i: int, j: int, v: i64, k: int, mn_x: usize)
        requires
            Self::insert_shape(m0, mm, i, j, v, k, mn_x),
        ensures
            forall|l: int|
                0 <= l < k ==> #[trigger] mm.minor(l) == m0.minor(l) && #[trigger] mm.values@[l]
                    == m0.values@[l],
            mm.minor(k) == m0.minor_of(i, j) && mm.values@[k] == v,
            forall|l: int|
                k < l <= m0.nonzeros ==> #[trigger] mm.minor(l) == m0.minor(l - 1)
                    && #[trigger] mm.values@[l] == m0.values@[l - 1],
    {
        assert(0 <= m0.off(m0.major_of(i, j)) && m0.off(m0.major_of(i, j) + 1) <= m0.nonzeros) by {
            assert(m0.off(0) <= m0.off(m0.major_of(i, j)));
            assert(m0.off(m0.major_of(i, j) + 1) <= m0.off(m0.major_dim()));
        }
        m0.values@.insert_ensures(k, v);
        m0.indices@.insert_ensures(k, mn_x);
        assert forall|l: int| k < l <= m0.nonzeros implies #[trigger] mm.minor(l) == m0.minor(l - 1)
            && #[trigger] mm.values@[l] == m0.values@[l - 1] by {
            assert(mm.values@[(l - 1) + 1] == m0.values@[l - 1]);
            assert(mm.indices@[(l - 1) + 1] == m0.indices@[l - 1]);
        }
    }

    /// Inserting a fresh slot at the sorted position preserves
    /// well-formedness.
    #[verifier::rlimit(100)]
    proof fn lemma_insert_wf(m0: Self, mm: Self, i: int, j: int, v: i64, k: int, mn_x: usize)
        requires
            Self::insert_shape(m0, mm, i, j, v, k, mn_x),
        ensures
            mm.wf(),
    {
        let mj = m0.major_of(i, j);
        let mn = m0.minor_of(i, j);
        assert(0 <= m0.off(mj) && m0.off(mj + 1) <= m0.nonzeros) by {
            assert(m0.off(0) <= m0.off(mj));
            assert(m0.off(mj + 1) <= m0.off(m0.major_dim()));
        }
        Self::lemma_insert_pointwise(m0, mm, i, j, v, k, mn_x);
        assert forall|m1: int, m2: int|
            #![trigger mm.off(m1), mm.off(m2)]
            0 <= m1 <= m2 <= mm.major_dim() implies mm.off(m1) <= mm.off(m2) by {
            assert(m0.off(m1) <= m0.off(m2));
        }
        assert forall|m: int, k1: int, k2: int|
            #![trigger mm.off(m), mm.minor(k1), mm.minor(k2)]
            0 <= m < mm.major_dim() && mm.off(m) <= k1 < k2 && k2 < mm.off(m + 1) implies mm.minor(
            k1,
        ) < mm.minor(k2) by {
            Self::lemma_insert_sorted_at(m0, mm, i, j, v, k, mn_x, m, k1, k2);
        }
        assert forall|l: int| 0 <= l < mm.nonzeros implies #[trigger] mm.minor(l)
            < mm.minor_dim() by {
            if l < k {
                assert(m0.minor(l) < m0.minor_dim());
            } else if l > k {
                assert(m0.minor(l - 1) < m0.minor_dim());
            }
        }
        assert(mm.wf());
    }

    /// One pair of slots of one slice stays strictly sorted across an
    /// insertion.
    #[verifier::rlimit(100)]
    proof fn lemma_insert_sorted_at(
        m0: Self,
        mm: Self,
        i: int,
        j: int,
        v: i64,
        k: int,
        mn_x: usize,
        m: int,
        k1: int,
        k2: int,
    )
        requires
            Self::insert_shape(m0, mm, i, j, v, k, mn_x),
            0 <= m < mm.major_dim(),
            mm.off(m) <= k1 < k2,
            k2 < mm.off(m + 1),
        ensures
            mm.minor(k1) < mm.minor(k2),
    {
        let mj = m0.major_of(i, j);
        let mn = m0.minor_of(i, j);
        assert(0 <= m0.off(mj) && m0.off(mj + 1) <= m0.nonzeros) by {
            assert(m0.off(0) <= m0.off(mj));
            assert(m0.off(mj + 1) <= m0.off(m0.major_dim()));
        }
        Self::lemma_insert_pointwise(m0, mm, i, j, v, k, mn_x);
        if m < mj {
            assert(m0.off(m + 1) <= m0.off(mj));
            assert(m0.minor(k1) < m0.minor(k2));
        } else if m > mj {
            assert(m0.off(mj + 1) <= m0.off(m));
            assert(m0.minor(k1 - 1) < m0.minor(k2 - 1));
        } else {
            if k2 < k {
                assert(m0.minor(k1) < m0.minor(k2));
            } else if k1 > k {
                assert(m0.minor(k1 - 1) < m0.minor(k2 - 1));
            } else if k1 < k && k2 == k {
                assert(m0.minor(k1) < mn);
            } else if k1 == k {
                assert(k2 - 1 >= k && k < m0.off(mj + 1));
                if k2 - 1 > k {
                    assert(m0.minor(k) < m0.minor(k2 - 1));
                }
            } else {
                assert(m0.minor(k1) < mn);
                assert(k2 - 1 >= k && k < m0.off(mj + 1));
                if k2 - 1 > k {
                    assert(m0.minor(k) < m0.minor(k2 - 1));
                }
            }
        }
    }

    /// After an insertion for (`i`, `j`), a coordinate stored before stays
    /// stored with the same value.
    #[verifier::rlimit(100)]
    proof fn lemma_insert_preserve_fwd(
        m0: Self,
        mm: Self,
        i: int,
        j: int,
        v: i64,
        k: int,
        mn_x: usize,
        r: int,
        c: int,
    )
        requires
            Self::insert_shape(m0, mm, i, j, v, k, mn_x),
            mm.wf(),
            m0.in_bounds(r, c),
            !(r == i && c == j),
            m0.stored(r, c),
        ensures
            mm.stored(r, c),
            mm.entry(r, c) == m0.entry(r, c),
    {
        let mj = m0.major_of(i, j);
        let mr = m0.major_of(r, c);
        let nr = m0.minor_of(r, c);
        Self::lemma_insert_pointwise(m0, mm, i, j, v, k, mn_x);
        let kk = m0.stored_slot_helper(r, c);
        m0.lemma_entry_witness(r, c, kk);
        m0.lemma_slot_in_range(mr, kk);
        if mr < mj {
            assert(m0.off(mr + 1) <= m0.off(mj));
            assert(mm.slot_in_slice(mr, kk) && mm.minor(kk) == nr);
            mm.lemma_entry_witness(r, c, kk);
        } else if mr > mj {
            assert(m0.off(mj + 1) <= m0.off(mr));
            assert(mm.slot_in_slice(mr, kk + 1) && mm.minor(kk + 1) == nr);
            mm.lemma_entry_witness(r, c, kk + 1);
        } else {
            if kk < k {
                assert(mm.slot_in_slice(mr, kk) && mm.minor(kk) == nr);
                mm.lemma_entry_witness(r, c, kk);
            } else {
                assert(mm.slot_in_slice(mr, kk + 1) && mm.minor(kk + 1) == nr);
                mm.lemma_entry_witness(r, c, kk + 1);
            }
        }
    }

    /// After an insertion for (`i`, `j`), no other coordinate gains a slot.
    #[verifier::rlimit(100)]
    proof fn lemma_insert_preserve_bwd(
        m0: Self,
        mm: Self,
        i: int,
        j: int,
        v: i64,
        k: int,
        mn_x: usize,
        r: int,
        c: int,
    )
        requires
            Self::insert_shape(m0, mm, i, j, v, k, mn_x),
            mm.wf(),
            m0.in_bounds(r, c),
            !(r == i && c == j),
            !m0.stored(r, c),
        ensures
            !mm.stored(r, c),
    {
        let mj = m0.major_of(i, j);
        let mn = m0.minor_of(i, j);
        let mr = m0.major_of(r, c);
        let nr = m0.minor_of(r, c);
        Self::lemma_insert_pointwise(m0, mm, i, j, v, k, mn_x);
        if mm.stored(r, c) {
            let kk = mm.stored_slot_helper(r, c);
            if mr < mj {
                assert(m0.off(mr + 1) <= m0.off(mj));
                assert(m0.slot_in_slice(mr, kk) && m0.minor(kk) == nr);
                assert(m0.stored(r, c));
            } else if mr > mj {
                assert(m0.off(mj + 1) <= m0.off(mr));
                assert(m0.slot_in_slice(mr, kk - 1) && m0.minor(kk - 1) == nr);
                assert(m0.stored(r, c));
            } else {
                if kk < k {
                    assert(m0.slot_in_slice(mr, kk) && m0.minor(kk) == nr);
                    assert(m0.stored(r, c));
                } else if kk == k {
                    assert(nr == mn && mr == mj);
                    assert(false);
                } else {
                    assert(m0.slot_in_slice(mr, kk - 1) && m0.minor(kk - 1) == nr);
                    assert(m0.stored(r, c));
                }
            }
            assert(false);
        }
    }

    /// Inserting the slot of (`i`, `j`) leaves every other coordinate
    /// untouched.
    proof fn lemma_insert_preserve(
        m0: Self,
        mm: Self,
        i: int,
        j: int,
        v: i64,
        k: int,
        mn_x: usize,
        r: int,
        c: int,
    )
        requires
            Self::insert_shape(m0, mm, i, j, v, k, mn_x),
            mm.wf(),
            m0.in_bounds(r, c),
            !(r == i && c == j),
        ensures
            mm.stored(r, c) == m0.stored(r, c),
            mm.entry(r, c) == m0.entry(r, c),
    {
        if m0.stored(r, c) {
            Self::lemma_insert_preserve_fwd(m0, mm, i, j, v, k, mn_x, r, c);
        } else {
            Self::lemma_insert_preserve_bwd(m0, mm, i, j, v, k, mn_x, r, c);
        }
    }

    /// Inserting a fresh slot at the sorted position realizes `set_post`.
    proof fn lemma_insert_post(m0: Self, mm: Self, i: int, j: int, v: i64, k: int, mn_x: usize)
        requires
            Self::insert_shape(m0, mm, i, j, v, k, mn_x),
        ensures
            mm.set_post(m0, i, j, v),
    {
        let mj = m0.major_of(i, j);
        Self::lemma_insert_wf(m0, mm, i, j, v, k, mn_x);
        Self::lemma_insert_pointwise(m0, mm, i, j, v, k, mn_x);
        m0.lemma_scan_absent(i, j, k);
        assert(mm.slot_in_slice(mj, k));
        mm.lemma_entry_witness(i, j, k);
        assert forall|r: int, c: int|
            m0.in_bounds(r, c) && !(r == i && c == j) implies #[trigger] mm.stored(r, c)
            == m0.stored(r, c) by {
            Self::lemma_insert_preserve(m0, mm, i, j, v, k, mn_x, r, c);
        }
        assert forall|r: int, c: int|
            m0.in_bounds(r, c) && !(r == i && c == j) implies #[trigger] mm.entry(r, c)
            == m0.entry(r, c) by {
            Self::lemma_insert_preserve(m0, mm, i, j, v, k, mn_x, r, c);
        }
    }

    /// The witness behind a `stored` coordinate.
    proof fn stored_slot_helper(self, r: int, c: int) -> (k: int)
        requires
            self.stored(r, c),
        ensures
            self.slot_in_slice(self.major_of(r, c), k),
            self.minor(k) == self.minor_of(r, c),
    {
        choose|k: int|
            #![trigger self.minor(k)]
            self.slot_in_slice(self.major_of(r, c), k) && self.minor(k) == self.minor_of(r, c)
    }

    /// Assign a value to an element. The function treats a zero value like
    /// any other: it occupies a slot whether or not it is zero. A coordinate
    /// outside the dimensions leaves the matrix untouched and returns an
    /// error.
    #[verifier::loop_isolation(false)]
    pub fn set(&mut self, i: usize, j: usize, value: i64) -> (result: Result<(), Error>)
        requires
            old(self).wf(),
        ensures
            match result {
                Ok(_) => old(self).in_bounds(i as int, j as int) && final(self).set_post(
                    *old(self),
                    i as int,
                    j as int,
                    value,
                ),
                Err(e) => e == Error::OutOfBounds && !old(self).in_bounds(i as int, j as int)
                    && *final(self) == *old(self),
            },
    {
        if i >= self.rows || j >= self.columns {
            return Err(Error::OutOfBounds);
        }
        let (major, minor) = match self.format {
            Format::Column => (j, i),
            Format::Row => (i, j),
        };
        let (k, found) = self.locate(major, minor);
        if found {
            proof {
                self.lemma_slot_in_range(major as int, k as int);
            }
            self.values[k] = value;
            proof {
                Self::lemma_overwrite_post(
                    *old(self),
                    *self,
                    i as int,
                    j as int,
                    value,
                    k as int,
                );
            }
            return Ok(());
        }
        proof {
            assert(k <= self.values.len()) by {
                assert(old(self).off(major as int + 1) <= old(self).off(old(self).major_dim()));
            }
        }
        self.values.insert(k, value);
        self.indices.insert(k, minor);
        proof {
            assert(self.values.len() <= usize::MAX);
        }
        self.nonzeros = self.nonzeros + 1;
        let ghost mid = *self;
        let mut t = major + 1;
        let end = self.offsets.len();
        while t < end
            invariant
                major as int + 1 <= t <= end,
                self.rows == mid.rows,
                self.columns == mid.columns,
                self.format == mid.format,
                self.nonzeros == mid.nonzeros,
                self.values == mid.values,
                self.indices == mid.indices,
                self.offsets@.len() == mid.offsets@.len(),
                forall|u: int| 0 <= u <= major as int ==> #[trigger] self.off(u) == mid.off(u),
                forall|u: int| (major as int) < u < t ==> #[trigger] self.off(u) == mid.off(u) + 1,
                forall|u: int| t <= u < end ==> #[trigger] self.off(u) == mid.off(u),
            decreases end - t,
        {
            proof {
                assert(self.off(t as int) == mid.off(t as int));
                assert(mid.off(t as int) == old(self).off(t as int));
                assert(old(self).off(t as int) <= old(self).off(old(self).major_dim()));
            }
            let ghost prev = *self;
            let x = self.offsets[t];
            self.offsets[t] = x + 1;
            proof {
                assert forall|u: int|
                    0 <= u < self.offsets@.len() && u != t implies #[trigger] self.off(u)
                    == prev.off(u) by {}
                assert(self.off(t as int) == prev.off(t as int) + 1);
            }
            t += 1;
        }
        proof {
            Self::lemma_insert_post(
                *old(self),
                *self,
                i as int,
                j as int,
                value,
                k as int,
                minor,
            );
        }
        Ok(())
    }

    /// The major index whose slice holds slot `k`, found by walking the
    /// offsets from major index `m` upward.
    pub open spec fn major_at_from(self, m: int, k: int) -> int
        decreases self.major_dim() - m,
    {
        if m < 0 || m >= self.major_dim() - 1 {
            m
        } else if k < self.off(m + 1) {
            m
        } else {
            self.major_at_from(m + 1, k)
        }
    }

    /// The major index whose slice holds slot `k`.
    pub open spec fn major_at(self, k: int) -> int {
        self.major_at_from(0, k)
    }

    /// The row of slot `k`.
    pub open spec fn coord_i(self, k: int) -> int {
        match self.format {
            Format::Column => self.minor(k),
            Format::Row => self.major_at(k),
        }
    }

    /// The column of slot `k`.
    pub open spec fn coord_j(self, k: int) -> int {
        match self.format {
            Format::Column => self.major_at(k),
            Format::Row => self.minor(k),
        }
    }

    /// Walking the offsets finds the slice that holds slot `k`.
    pub proof fn lemma_major_at_from(self, m: int, k: int)
        requires
            self.wf(),
            0 <= m < self.major_dim(),
            self.off(m) <= k < self.nonzeros,
        ensures
            m <= self.major_at_from(m, k) < self.major_dim(),
            self.slot_in_slice(self.major_at_from(m, k), k),
        decreases self.major_dim() - m,
    {
        if m >= self.major_dim() - 1 {
            assert(self.off(m + 1) == self.nonzeros);
        } else if k < self.off(m + 1) {
        } else {
            self.lemma_major_at_from(m + 1, k);
        }
    }

    /// Every slot lies in the slice of its `major_at` index.
    pub proof fn lemma_major_at(self, k: int)
        requires
            self.wf(),
            0 <= k < self.nonzeros,
        ensures
            0 <= self.major_at(k) < self.major_dim(),
            self.slot_in_slice(self.major_at(k), k),
    {
        self.lemma_major_at_from(0, k);
    }

    /// `major_at` agrees with any slice known to hold the slot.
    pub proof fn lemma_major_at_unique(self, m: int, k: int)
        requires
            self.wf(),
            0 <= m < self.major_dim(),
            self.slot_in_slice(m, k),
        ensures
            self.major_at(k) == m,
    {
        self.lemma_slot_in_range(m, k);
        self.lemma_major_at(k);
        if self.major_at(k) != m {
            self.lemma_slices_disjoint(m, self.major_at(k), k);
        }
    }

    /// Each slot is the stored slot of its own coordinates.
    pub proof fn lemma_slot_coords(self, k: int)
        requires
            self.wf(),
            0 <= k < self.nonzeros,
        ensures
            self.in_bounds(self.coord_i(k), self.coord_j(k)),
            self.major_of(self.coord_i(k), self.coord_j(k)) == self.major_at(k),
            self.minor_of(self.coord_i(k), self.coord_j(k)) == self.minor(k),
            self.stored(self.coord_i(k), self.coord_j(k)),
            self.slot(self.coord_i(k), self.coord_j(k)) == k,
            self.entry(self.coord_i(k), self.coord_j(k)) == self.values@[k],
    {
        self.lemma_major_at(k);
        self.lemma_entry_witness(self.coord_i(k), self.coord_j(k), k);
    }

    /// The relation between a matrix `m` and the matrix `self` left by one
    /// pass of `retain`: `keep` records the verdict on each stored slot, and
    /// the arrays of `self` are those of `m` with the rejected slots erased.
    pub open spec fn retain_post(self, m: Self, keep: Seq<bool>) -> bool {
        &&& self.wf()
        &&& self.rows == m.rows
        &&& self.columns == m.columns
        &&& self.format == m.format
        &&& keep.len() == m.nonzeros
        &&& self.nonzeros == count_kept(keep, m.nonzeros as int)
        &&& self.values@ == filter_kept(m.values@, keep, m.nonzeros as int)
        &&& self.indices@ == filter_kept(m.indices@, keep, m.nonzeros as int)
        &&& self.offsets@.len() == m.offsets@.len()
        &&& forall|u: int|
            0 <= u < self.offsets@.len() ==> #[trigger] self.off(u) == count_kept(keep, m.off(u))
    }

    /// Retain the elements that satisfy a condition and discard the rest.
    /// The condition sees each stored slot once, with its row, column and
    /// value; a slot stays exactly when the condition returns true on it.
    #[verifier::loop_isolation(false)]
    #[verifier::rlimit(100)]
    pub fn retain<F: Fn(usize, usize, i64) -> bool>(&mut self, condition: F) -> (keep: Ghost<
        Seq<bool>,
    >)
        requires
            old(self).wf(),
            forall|r: usize, c: usize, v: i64|
                old(self).in_bounds(r as int, c as int) ==> #[trigger] call_requires(
                    condition,
                    (r, c, v),
                ),
        ensures
            final(self).retain_post(*old(self), keep@),
            forall|kk: int|
                0 <= kk < old(self).nonzeros ==> #[trigger] call_ensures(
                    condition,
                    (
                        (old(self).coord_i(kk) as usize),
                        (old(self).coord_j(kk) as usize),
                        old(self).values@[kk],
                    ),
                    keep@[kk],
                ),
    {
        let major_count = self.offsets.len() - 1;
        let mut values: Vec<i64> = Vec::new();
        let mut indices: Vec<usize> = Vec::new();
        let mut offsets: Vec<usize> = Vec::new();
        offsets.push(0);
        let ghost mut keep: Seq<bool> = Seq::empty();
        let mut k: usize = 0;
        let mut major: usize = 0;
        while major < major_count
            invariant
                major <= major_count,
                k as int == self.off(major as int),
                keep.len() == k,
                offsets@.len() == major + 1,
                offsets@[0] == 0,
                forall|u: int|
                    0 <= u <= major ==> (#[trigger] offsets@[u]) as int == count_kept(
                        keep,
                        self.off(u),
                    ),
                forall|u: int| 0 <= u <= major ==> ((#[trigger] offsets@[u]) as int) <= indices@.len(),
                values@ == filter_kept(self.values@, keep, k as int),
                indices@ == filter_kept(self.indices@, keep, k as int),
                values@.len() == indices@.len(),
                values@.len() == count_kept(keep, k as int),
                forall|kk: int|
                    0 <= kk < k ==> #[trigger] call_ensures(
                        condition,
                        (
                            (self.coord_i(kk) as usize),
                            (self.coord_j(kk) as usize),
                            self.values@[kk],
                        ),
                        keep[kk],
                    ),
                forall|mx: int, l1: int, l2: int|
                    #![trigger offsets@[mx], indices@[l1], indices@[l2]]
                    0 <= mx && mx + 1 < offsets@.len() && (offsets@[mx] as int) <= l1 < l2 && l2 < (
                    offsets@[mx + 1] as int) ==> (indices@[l1] as int) < (indices@[l2] as int),
                forall|l: int|
                    0 <= l < indices@.len() ==> ((#[trigger] indices@[l]) as int)
                        < self.minor_dim(),
            decreases major_count - major,
        {
            let hi = self.offsets[major + 1];
            proof {
                assert(self.off(major as int) <= self.off(major as int + 1));
            }
            while k < hi
                invariant
                    self.off(major as int) <= k <= hi,
                    keep.len() == k,
                    offsets@.len() == major + 1,
                    forall|u: int|
                        0 <= u <= major ==> (#[trigger] offsets@[u]) as int == count_kept(
                            keep,
                            self.off(u),
                        ),
                    forall|u: int| 0 <= u <= major ==> ((#[trigger] offsets@[u]) as int) <= indices@.len(),
                    forall|l1: int, l2: int|
                        #![trigger indices@[l1], indices@[l2]]
                        (offsets@[major as int] as int) <= l1 < l2 && l2 < indices@.len() ==> ((
                        indices@[l1]) as int) < ((indices@[l2]) as int),
                    values@ == filter_kept(self.values@, keep, k as int),
                    indices@ == filter_kept(self.indices@, keep, k as int),
                    values@.len() == indices@.len(),
                    values@.len() == count_kept(keep, k as int),
                    forall|kk: int|
                        0 <= kk < k ==> #[trigger] call_ensures(
                            condition,
                            (
                                (self.coord_i(kk) as usize),
                                (self.coord_j(kk) as usize),
                                self.values@[kk],
                            ),
                            keep[kk],
                        ),
                    forall|mx: int, l1: int, l2: int|
                        #![trigger offsets@[mx], indices@[l1], indices@[l2]]
                        0 <= mx && mx + 1 < offsets@.len() && (offsets@[mx] as int) <= l1 < l2
                            && l2 < (offsets@[mx + 1] as int) ==> (indices@[l1] as int) < (
                        indices@[l2] as int),
                    forall|l: int|
                        0 <= l < indices@.len() ==> ((#[trigger] indices@[l]) as int)
                            < self.minor_dim(),
                    forall|l: int|
                        (offsets@[major as int] as int) <= l < indices@.len() && k < hi ==> ((
                        #[trigger] indices@[l]) as int) < self.minor(k as int),
                decreases hi - k,
            {
                proof {
                    self.lemma_slot_in_range(major as int, k as int);
                    self.lemma_slot_coords(k as int);
                    self.lemma_major_at_unique(major as int, k as int);
                }
                let minor_x = self.indices[k];
                let val = self.values[k];
                let (row, col) = match self.format {
                    Format::Column => (minor_x, major),
                    Format::Row => (major, minor_x),
                };
                let keep_it = condition(row, col, val);
                proof {
                    let ghost keep0 = keep;
                    keep = keep.push(keep_it);
                    lemma_kept_prefix(self.values@, keep0, keep, k as int);
                    lemma_kept_prefix(self.indices@, keep0, keep, k as int);
                    assert forall|u: int| 0 <= u <= major implies (#[trigger] offsets@[u]) as int
                        == count_kept(keep, self.off(u)) by {
                        lemma_kept_prefix(self.values@, keep0, keep, self.off(u));
                        assert(self.off(u) <= self.off(major as int));
                    }
                    if k as int + 1 < hi {
                        assert(self.minor(k as int) < self.minor(k as int + 1));
                    }
                }
                if keep_it {
                    values.push(val);
                    indices.push(minor_x);
                }
                k += 1;
            }
            offsets.push(values.len());
            major += 1;
        }
        let nnz = values.len();
        let ghost m0 = *self;
        let ghost gkeep = keep;
        self.values = values;
        self.indices = indices;
        self.offsets = offsets;
        self.nonzeros = nnz;
        proof {
            Self::lemma_retain_assemble(m0, *self, gkeep);
        }
        Ghost(gkeep)
    }

    /// The arrays built by one filtering pass form a well-formed matrix that
    /// stands in `retain_post` to the original.
    proof fn lemma_retain_assemble(m0: Self, mm: Self, keep: Seq<bool>)
        requires
            m0.wf(),
            mm.rows == m0.rows,
            mm.columns == m0.columns,
            mm.format == m0.format,
            keep.len() == m0.nonzeros,
            mm.nonzeros == count_kept(keep, m0.nonzeros as int),
            mm.values@ == filter_kept(m0.values@, keep, m0.nonzeros as int),
            mm.indices@ == filter_kept(m0.indices@, keep, m0.nonzeros as int),
            mm.offsets@.len() == m0.offsets@.len(),
            forall|u: int|
                0 <= u < mm.offsets@.len() ==> (#[trigger] mm.offsets@[u]) as int == count_kept(
                    keep,
                    m0.off(u),
                ),
            forall|mx: int, l1: int, l2: int|
                #![trigger mm.offsets@[mx], mm.indices@[l1], mm.indices@[l2]]
                0 <= mx && mx + 1 < mm.offsets@.len() && (mm.offsets@[mx] as int) <= l1 < l2 && l2
                    < (mm.offsets@[mx + 1] as int) ==> (mm.indices@[l1] as int) < (mm.indices@[l2]
                as int),
            forall|l: int|
                0 <= l < mm.indices@.len() ==> ((#[trigger] mm.indices@[l]) as int)
                    < m0.minor_dim(),
        ensures
            mm.wf(),
            mm.retain_post(m0, keep),
    {
        lemma_filter_kept_len(m0.values@, keep, m0.nonzeros as int);
        lemma_filter_kept_len(m0.indices@, keep, m0.nonzeros as int);
        assert(mm.major_dim() == m0.major_dim() && mm.minor_dim() == m0.minor_dim());
        assert(mm.off(0) == count_kept(keep, 0));
        assert forall|u1: int, u2: int|
            #![trigger mm.off(u1), mm.off(u2)]
            0 <= u1 <= u2 <= mm.major_dim() implies mm.off(u1) <= mm.off(u2) by {
            assert(m0.off(u1) <= m0.off(u2));
            lemma_count_kept_monotone(keep, m0.off(u1), m0.off(u2));
        }
        assert forall|m: int, k1: int, k2: int|
            #![trigger mm.off(m), mm.minor(k1), mm.minor(k2)]
            0 <= m < mm.major_dim() && mm.off(m) <= k1 < k2 && k2 < mm.off(m + 1) implies mm.minor(
            k1,
        ) < mm.minor(k2) by {
            assert((mm.offsets@[m] as int) <= k1 && k2 < (mm.offsets@[m + 1] as int));
            assert((mm.indices@[k1] as int) < (mm.indices@[k2] as int));
        }
        assert forall|l: int| 0 <= l < mm.nonzeros implies #[trigger] mm.minor(l)
            < mm.minor_dim() by {
            assert((mm.indices@[l] as int) < m0.minor_dim());
        }
        assert(mm.off(mm.major_dim()) == count_kept(keep, m0.off(m0.major_dim())));
        assert(mm.wf());
    }

    /// A slot kept by a filtering pass reappears in the result, in the same
    /// slice, at the position given by counting the kept slots before it.
    pub proof fn lemma_retain_kept_slot(m0: Self, mm: Self, keep: Seq<bool>, kk: int)
        requires
            m0.wf(),
            mm.retain_post(m0, keep),
            0 <= kk < m0.nonzeros,
            keep[kk],
        ensures
            0 <= count_kept(keep, kk) < mm.nonzeros,
            mm.slot_in_slice(m0.major_at(kk), count_kept(keep, kk)),
            mm.minor(count_kept(keep, kk)) == m0.minor(kk),
            mm.values@[count_kept(keep, kk)] == m0.values@[kk],
    {
        m0.lemma_major_at(kk);
        let mj = m0.major_at(kk);
        lemma_filter_kept_map(m0.values@, keep, m0.nonzeros as int, kk);
        lemma_filter_kept_map(m0.indices@, keep, m0.nonzeros as int, kk);
        lemma_filter_kept_len(m0.values@, keep, kk);
        lemma_count_kept_monotone(keep, m0.off(mj), kk);
        assert(count_kept(keep, kk + 1) == count_kept(keep, kk) + 1);
        lemma_count_kept_monotone(keep, kk + 1, m0.off(mj + 1));
        lemma_count_kept_monotone(keep, m0.off(mj + 1), m0.nonzeros as int);
    }

    /// Every slot of a filtered matrix comes from a kept slot of the
    /// original, in the same slice.
    pub proof fn lemma_retain_slot_source(
        m0: Self,
        mm: Self,
        keep: Seq<bool>,
        mr: int,
        q: int,
    ) -> (kk: int)
        requires
            m0.wf(),
            mm.retain_post(m0, keep),
            0 <= mr < m0.major_dim(),
            mm.slot_in_slice(mr, q),
        ensures
            0 <= kk < m0.nonzeros,
            keep[kk],
            count_kept(keep, kk) == q,
            m0.slot_in_slice(mr, kk),
            m0.minor(kk) == mm.minor(q),
            m0.values@[kk] == mm.values@[q],
    {
        assert(mm.major_dim() == m0.major_dim());
        mm.lemma_slot_in_range(mr, q);
        let kk = lemma_filter_kept_inv(m0.indices@, keep, m0.nonzeros as int, q);
        lemma_filter_kept_map(m0.values@, keep, m0.nonzeros as int, kk);
        if kk < m0.off(mr) {
            assert(count_kept(keep, kk + 1) == q + 1);
            lemma_count_kept_monotone(keep, kk + 1, m0.off(mr));
            assert(false);
        }
        if kk >= m0.off(mr + 1) {
            lemma_count_kept_monotone(keep, m0.off(mr + 1), kk);
            assert(false);
        }
        kk
    }

    /// Resize the matrix. An entry whose coordinates fall outside the new
    /// dimensions is dropped; every other entry keeps its coordinates and
    /// its value, and new rows and columns start empty.
    #[verifier::loop_isolation(false)]
    pub fn resize(&mut self, rows: usize, columns: usize)
        requires
            old(self).wf(),
            rows < usize::MAX,
            columns < usize::MAX,
        ensures
            final(self).wf(),
            final(self).rows == rows,
            final(self).columns == columns,
            final(self).format == old(self).format,
            forall|i: int, j: int|
                0 <= i < rows && 0 <= j < columns && i < old(self).rows && j < old(self).columns
                    ==> #[trigger] final(self).stored(i, j) == old(self).stored(i, j),
            forall|i: int, j: int|
                0 <= i < rows && 0 <= j < columns && i < old(self).rows && j < old(self).columns
                    ==> #[trigger] final(self).entry(i, j) == old(self).entry(i, j),
            forall|i: int, j: int|
                0 <= i < rows && 0 <= j < columns && !(i < old(self).rows && j < old(
                    self,
                ).columns) ==> !(#[trigger] final(self).stored(i, j)),
    {
        let r0 = rows;
        let c0 = columns;
        let ghost m0 = *self;
        let ghost mut keep: Seq<bool> = Seq::new(m0.nonzeros as nat, |kk: int| true);
        if rows < self.rows || columns < self.columns {
            let cond = |a: usize, b: usize, _v: i64| -> (res: bool)
                ensures
                    res == (a < r0 && b < c0),
                { a < r0 && b < c0 };
            let gk = self.retain(cond);
            proof {
                keep = gk@;
                assert forall|kk: int| 0 <= kk < m0.nonzeros implies #[trigger] keep[kk] == (
                m0.coord_i(kk) < rows && m0.coord_j(kk) < columns) by {
                    m0.lemma_slot_coords(kk);
                    assert(call_ensures(
                        cond,
                        (
                            (m0.coord_i(kk) as usize),
                            (m0.coord_j(kk) as usize),
                            m0.values@[kk],
                        ),
                        keep[kk],
                    ));
                }
            }
        } else {
            proof {
                lemma_count_kept_all(keep, m0.nonzeros as int);
                lemma_filter_kept_all(m0.values@, keep, m0.nonzeros as int);
                lemma_filter_kept_all(m0.indices@, keep, m0.nonzeros as int);
                assert(m0.values@.subrange(0, m0.nonzeros as int) =~= m0.values@);
                assert(m0.indices@.subrange(0, m0.nonzeros as int) =~= m0.indices@);
                assert forall|u: int| 0 <= u < self.offsets@.len() implies #[trigger] self.off(u)
                    == count_kept(keep, m0.off(u)) by {
                    assert(m0.off(u) <= m0.off(m0.major_dim()));
                    lemma_count_kept_all(keep, m0.off(u));
                }
                assert(self.retain_post(m0, keep));
                assert forall|kk: int| 0 <= kk < m0.nonzeros implies #[trigger] keep[kk] == (
                m0.coord_i(kk) < rows && m0.coord_j(kk) < columns) by {
                    m0.lemma_slot_coords(kk);
                }
            }
        }
        let ghost mid = *self;
        let (from, into) = match self.format {
            Format::Column => (self.columns, columns),
            Format::Row => (self.rows, rows),
        };
        if from > into {
            self.offsets.truncate(into + 1);
        } else if from < into {
            let ghost base = *self;
            let mut t = from;
            while t < into
                invariant
                    from <= t <= into,
                    self.values == base.values,
                    self.indices == base.indices,
                    self.nonzeros == base.nonzeros,
                    self.rows == base.rows,
                    self.columns == base.columns,
                    self.format == base.format,
                    self.offsets@.len() == base.offsets@.len() + (t - from),
                    forall|u: int|
                        0 <= u < base.offsets@.len() ==> #[trigger] self.offsets@[u]
                            == base.offsets@[u],
                    forall|u: int|
                        base.offsets@.len() <= u < self.offsets@.len() ==> (#[trigger] self
                            .offsets@[u]) == base.nonzeros,
                decreases into - t,
            {
                self.offsets.push(self.nonzeros);
                t += 1;
            }
        }
        self.rows = rows;
        self.columns = columns;
        proof {
            Self::lemma_resize_assemble(m0, mid, *self, keep, rows as int, columns as int);
        }
    }

    /// Adjusting the offsets to the new major dimension, after the filtering
    /// pass, yields a well-formed matrix with exactly the surviving entries.
    #[verifier::rlimit(100)]
    proof fn lemma_resize_assemble(m0: Self, mid: Self, mm: Self, keep: Seq<bool>, nr: int, nc: int)
        requires
            m0.wf(),
            mid.retain_post(m0, keep),
            forall|kk: int|
                0 <= kk < m0.nonzeros ==> #[trigger] keep[kk] == (m0.coord_i(kk) < nr
                    && m0.coord_j(kk) < nc),
            mm.rows == nr,
            mm.columns == nc,
            mm.format == m0.format,
            mm.values == mid.values,
            mm.indices == mid.indices,
            mm.nonzeros == mid.nonzeros,
            mm.offsets@.len() == mm.major_dim() + 1,
            forall|u: int|
                0 <= u < mm.offsets@.len() && u < mid.offsets@.len() ==> #[trigger] mm.offsets@[u]
                    == mid.offsets@[u],
            forall|u: int|
                mid.offsets@.len() <= u < mm.offsets@.len() ==> (#[trigger] mm.offsets@[u]) as int
                    == mid.nonzeros,
            0 <= nr < usize::MAX,
            0 <= nc < usize::MAX,
        ensures
            mm.wf(),
            forall|i: int, j: int|
                0 <= i < nr && 0 <= j < nc && i < m0.rows && j < m0.columns
                    ==> #[trigger] mm.stored(i, j) == m0.stored(i, j),
            forall|i: int, j: int|
                0 <= i < nr && 0 <= j < nc && i < m0.rows && j < m0.columns
                    ==> #[trigger] mm.entry(i, j) == m0.entry(i, j),
            forall|i: int, j: int|
                0 <= i < nr && 0 <= j < nc && !(i < m0.rows && j < m0.columns) ==> !(
                #[trigger] mm.stored(i, j)),
    {
        Self::lemma_resize_wf(m0, mid, mm, keep, nr, nc);
        assert forall|i: int, j: int|
            0 <= i < nr && 0 <= j < nc && i < m0.rows && j < m0.columns implies #[trigger] mm.stored(
            i,
            j,
        ) == m0.stored(i, j) by {
            Self::lemma_resize_coord(m0, mid, mm, keep, nr, nc, i, j);
        }
        assert forall|i: int, j: int|
            0 <= i < nr && 0 <= j < nc && i < m0.rows && j < m0.columns implies #[trigger] mm.entry(
            i,
            j,
        ) == m0.entry(i, j) by {
            Self::lemma_resize_coord(m0, mid, mm, keep, nr, nc, i, j);
        }
        assert forall|i: int, j: int|
            0 <= i < nr && 0 <= j < nc && !(i < m0.rows && j < m0.columns) implies !(
        #[trigger] mm.stored(i, j)) by {
            Self::lemma_resize_outside(m0, mid, mm, keep, nr, nc, i, j);
        }
    }

    /// After the filtering pass no kept slot lies at or beyond the offset of
    /// a major index that the new dimensions cut away.
    proof fn lemma_resize_cut(m0: Self, mid: Self, mm: Self, keep: Seq<bool>, nr: int, nc: int)
        requires
            m0.wf(),
            mid.retain_post(m0, keep),
            forall|kk: int|
                0 <= kk < m0.nonzeros ==> #[trigger] keep[kk] == (m0.coord_i(kk) < nr
                    && m0.coord_j(kk) < nc),
            mm.rows == nr,
            mm.columns == nc,
            mm.format == m0.format,
            0 <= mm.major_dim() < m0.major_dim(),
        ensures
            count_kept(keep, m0.off(mm.major_dim())) == count_kept(keep, m0.nonzeros as int),
    {
        let nm = mm.major_dim();
        assert forall|kk: int| m0.off(nm) <= kk < m0.nonzeros implies !(#[trigger] keep[kk]) by {
            m0.lemma_major_at(kk);
            if m0.major_at(kk) < nm {
                assert(m0.off(m0.major_at(kk) + 1) <= m0.off(nm));
                assert(false);
            }
            m0.lemma_slot_coords(kk);
        }
        assert(0 <= m0.off(nm) <= m0.nonzeros) by {
            assert(m0.off(0) <= m0.off(nm));
            assert(m0.off(nm) <= m0.off(m0.major_dim()));
        }
        lemma_count_kept_range_none(keep, m0.off(nm), m0.nonzeros as int);
    }

    /// The matrix assembled by `resize` is well-formed.
    #[verifier::rlimit(100)]
    proof fn lemma_resize_wf(m0: Self, mid: Self, mm: Self, keep: Seq<bool>, nr: int, nc: int)
        requires
            m0.wf(),
            mid.retain_post(m0, keep),
            forall|kk: int|
                0 <= kk < m0.nonzeros ==> #[trigger] keep[kk] == (m0.coord_i(kk) < nr
                    && m0.coord_j(kk) < nc),
            mm.rows == nr,
            mm.columns == nc,
            mm.format == m0.format,
            mm.values == mid.values,
            mm.indices == mid.indices,
            mm.nonzeros == mid.nonzeros,
            mm.offsets@.len() == mm.major_dim() + 1,
            forall|u: int|
                0 <= u < mm.offsets@.len() && u < mid.offsets@.len() ==> #[trigger] mm.offsets@[u]
                    == mid.offsets@[u],
            forall|u: int|
                mid.offsets@.len() <= u < mm.offsets@.len() ==> (#[trigger] mm.offsets@[u]) as int
                    == mid.nonzeros,
            0 <= nr < usize::MAX,
            0 <= nc < usize::MAX,
        ensures
            mm.wf(),
    {
        let nm = mm.major_dim();
        let om = m0.major_dim();
        assert(mid.offsets@.len() == om + 1);
        assert forall|u: int| 0 <= u <= nm && u <= om implies #[trigger] mm.off(u) == mid.off(
            u,
        ) by {}
        if nm < om {
            Self::lemma_resize_cut(m0, mid, mm, keep, nr, nc);
            assert(mm.off(nm) == mid.off(nm));
            assert(mid.off(nm) == count_kept(keep, m0.off(nm)));
            assert(mm.off(nm) == mid.nonzeros);
        } else {
            assert(mm.off(nm) == mid.nonzeros);
        }
        assert forall|u1: int, u2: int|
            #![trigger mm.off(u1), mm.off(u2)]
            0 <= u1 <= u2 <= nm implies mm.off(u1) <= mm.off(u2) by {
            if u2 <= om {
                assert(mid.off(u1) <= mid.off(u2));
            } else if u1 <= om {
                assert(mid.off(u1) <= mid.off(om));
            }
        }
        assert forall|m: int, k1: int, k2: int|
            #![trigger mm.off(m), mm.minor(k1), mm.minor(k2)]
            0 <= m < nm && mm.off(m) <= k1 < k2 && k2 < mm.off(m + 1) implies mm.minor(k1)
            < mm.minor(k2) by {
            if m + 1 <= om {
                assert(mid.off(m) <= k1 && k2 < mid.off(m + 1));
                assert(mid.minor(k1) < mid.minor(k2));
            } else {
                assert((mm.offsets@[m + 1] as int) == mid.nonzeros);
                if m == om {
                    assert(mm.off(m) == mid.off(om));
                } else {
                    assert((mm.offsets@[m] as int) == mid.nonzeros);
                }
                assert(false);
            }
        }
        assert forall|l: int| 0 <= l < mm.nonzeros implies #[trigger] mm.minor(l)
            < mm.minor_dim() by {
            mid.lemma_major_at(l);
            let kk = Self::lemma_retain_slot_source(m0, mid, keep, mid.major_at(l), l);
            m0.lemma_slot_coords(kk);
        }
        assert(mm.wf());
    }

    /// Inside both the old and the new bounds, `resize` changes nothing.
    #[verifier::rlimit(100)]
    proof fn lemma_resize_coord(
        m0: Self,
        mid: Self,
        mm: Self,
        keep: Seq<bool>,
        nr: int,
        nc: int,
        i: int,
        j: int,
    )
        requires
            m0.wf(),
            mid.retain_post(m0, keep),
            forall|kk: int|
                0 <= kk < m0.nonzeros ==> #[trigger] keep[kk] == (m0.coord_i(kk) < nr
                    && m0.coord_j(kk) < nc),
            mm.rows == nr,
            mm.columns == nc,
            mm.format == m0.format,
            mm.values == mid.values,
            mm.indices == mid.indices,
            mm.nonzeros == mid.nonzeros,
            mm.offsets@.len() == mm.major_dim() + 1,
            forall|u: int|
                0 <= u < mm.offsets@.len() && u < mid.offsets@.len() ==> #[trigger] mm.offsets@[u]
                    == mid.offsets@[u],
            forall|u: int|
                mid.offsets@.len() <= u < mm.offsets@.len() ==> (#[trigger] mm.offsets@[u]) as int
                    == mid.nonzeros,
            mm.wf(),
            0 <= i < nr,
            0 <= j < nc,
            i < m0.rows,
            j < m0.columns,
        ensures
            mm.stored(i, j) == m0.stored(i, j),
            mm.entry(i, j) == m0.entry(i, j),
    {
        let mj = m0.major_of(i, j);
        assert(mm.major_of(i, j) == mj && mm.minor_of(i, j) == m0.minor_of(i, j));
        assert(0 <= mj < m0.major_dim() && mj < mm.major_dim());
        assert(mm.off(mj) == mid.off(mj) && mm.off(mj + 1) == mid.off(mj + 1));
        if m0.stored(i, j) {
            let kk = m0.stored_slot_helper(i, j);
            m0.lemma_entry_witness(i, j, kk);
            m0.lemma_slot_in_range(mj, kk);
            m0.lemma_slot_coords(kk);
            m0.lemma_major_at_unique(mj, kk);
            assert(keep[kk]);
            Self::lemma_retain_kept_slot(m0, mid, keep, kk);
            let q = count_kept(keep, kk);
            assert(mm.slot_in_slice(mj, q) && mm.minor(q) == mm.minor_of(i, j));
            mm.lemma_entry_witness(i, j, q);
            assert(mm.values@[q] == m0.values@[kk]);
        } else {
            if mm.stored(i, j) {
                let q = mm.stored_slot_helper(i, j);
                assert(mid.slot_in_slice(mj, q));
                let kk = Self::lemma_retain_slot_source(m0, mid, keep, mj, q);
                assert(m0.stored(i, j));
                assert(false);
            }
        }
    }

    /// Outside the old bounds, the resized matrix stores nothing.
    proof fn lemma_resize_outside(
        m0: Self,
        mid: Self,
        mm: Self,
        keep: Seq<bool>,
        nr: int,
        nc: int,
        i: int,
        j: int,
    )
        requires
            m0.wf(),
            mid.retain_post(m0, keep),
            forall|kk: int|
                0 <= kk < m0.nonzeros ==> #[trigger] keep[kk] == (m0.coord_i(kk) < nr
                    && m0.coord_j(kk) < nc),
            mm.rows == nr,
            mm.columns == nc,
            mm.format == m0.format,
            mm.values == mid.values,
            mm.indices == mid.indices,
            mm.nonzeros == mid.nonzeros,
            mm.offsets@.len() == mm.major_dim() + 1,
            forall|u: int|
                0 <= u < mm.offsets@.len() && u < mid.offsets@.len() ==> #[trigger] mm.offsets@[u]
                    == mid.offsets@[u],
            forall|u: int|
                mid.offsets@.len() <= u < mm.offsets@.len() ==> (#[trigger] mm.offsets@[u]) as int
                    == mid.nonzeros,
            mm.wf(),
            0 <= i < nr,
            0 <= j < nc,
            !(i < m0.rows && j < m0.columns),
        ensures
            !mm.stored(i, j),
    {
        let mj = mm.major_of(i, j);
        if mm.stored(i, j) {
            let q = mm.stored_slot_helper(i, j);
            mm.lemma_slot_in_range(mj, q);
            if mj < m0.major_dim() {
                assert(mm.off(mj) == mid.off(mj) && mm.off(mj + 1) == mid.off(mj + 1));
                assert(mid.slot_in_slice(mj, q));
                let kk = Self::lemma_retain_slot_source(m0, mid, keep, mj, q);
                m0.lemma_slot_coords(kk);
                m0.lemma_major_at_unique(mj, kk);
                assert(keep[kk]);
                assert(m0.coord_i(kk) < m0.rows && m0.coord_j(kk) < m0.columns);
                assert(m0.minor_of(m0.coord_i(kk), m0.coord_j(kk)) == m0.minor(kk));
                assert(mm.minor_of(i, j) == m0.minor(kk));
                assert(false);
            } else {
                assert((mm.offsets@[mj] as int) == mid.nonzeros);
                assert(mm.off(mj + 1) <= mm.off(mm.major_dim()));
                assert(false);
            }
        }
    }

    /// The major of a later slot never lies before the major of an earlier
    /// one.
    pub proof fn lemma_major_at_monotone(self, k1: int, k2: int)
        requires
            self.wf(),
            0 <= k1 <= k2 < self.nonzeros,
        ensures
            self.major_at(k1) <= self.major_at(k2),
    {
        self.lemma_major_at(k1);
        self.lemma_major_at(k2);
        if self.major_at(k2) < self.major_at(k1) {
            assert(self.off(self.major_at(k2) + 1) <= self.off(self.major_at(k1)));
            assert(false);
        }
    }

    /// Return a sparse iterator over the stored slots, in storage order.
    pub fn iter<'l>(&'l self) -> (it: Iterator<'l>)
        requires
            self.wf(),
        ensures
            it.wf(),
            it.matrix == self,
            it.taken == 0,
    {
        proof {
            if self.nonzeros > 0 {
                self.lemma_major_at(0);
            }
        }
        Iterator { matrix: self, taken: 0, major: 0 }
    }

    /// The relation of a matrix to its transpose: dimensions swapped, the
    /// format kept, and every entry mirrored across the main diagonal.
    pub open spec fn transpose_of(self, m: Self) -> bool {
        &&& self.wf()
        &&& self.rows == m.columns
        &&& self.columns == m.rows
        &&& self.format == m.format
        &&& self.nonzeros == m.nonzeros
        &&& forall|i: int, j: int|
            m.in_bounds(i, j) ==> #[trigger] self.stored(j, i) == m.stored(i, j)
        &&& forall|i: int, j: int| m.in_bounds(i, j) ==> #[trigger] self.entry(j, i) == m.entry(i, j)
    }

    /// Transpose the matrix in place.
    pub fn transpose(&mut self)
        requires
            old(self).wf(),
            old(self).rows < usize::MAX,
            old(self).columns < usize::MAX,
        ensures
            final(self).transpose_of(*old(self)),
    {
        let result = self.transposed();
        *self = result;
    }

    /// Convert a dense matrix into compressed-column form. Elements that are
    /// exactly zero are skipped, so the result stores no explicit zeros.
    #[verifier::loop_isolation(false)]
    #[verifier::rlimit(100)]
    pub fn from_dense(dense: &Dense) -> (result: Self)
        requires
            dense.wf(),
            dense.rows < usize::MAX,
            dense.columns < usize::MAX,
        ensures
            result.wf(),
            result.rows == dense.rows,
            result.columns == dense.columns,
            result.format == Format::Column,
            forall|i: int, j: int|
                result.in_bounds(i, j) ==> #[trigger] result.entry(i, j) == dense.at(i, j),
            forall|i: int, j: int|
                result.in_bounds(i, j) ==> #[trigger] result.stored(i, j) == (dense.at(i, j)
                    != 0i64),
    {
        let mut result = Compressed::new(dense.rows, dense.columns, Format::Column);
        proof {
            result.lemma_empty();
        }
        let n = dense.values.len();
        let mut k: usize = 0;
        while k < n
            invariant
                result.wf(),
                result.rows == dense.rows,
                result.columns == dense.columns,
                result.format == Format::Column,
                k <= n,
                forall|i: int, j: int|
                    result.in_bounds(i, j) && j * dense.rows + i < k ==> #[trigger] result.stored(
                        i,
                        j,
                    ) == (dense.at(i, j) != 0i64),
                forall|i: int, j: int|
                    result.in_bounds(i, j) && j * dense.rows + i < k ==> #[trigger] result.entry(
                        i,
                        j,
                    ) == dense.at(i, j),
                forall|i: int, j: int|
                    result.in_bounds(i, j) && j * dense.rows + i >= k ==> !(
                    #[trigger] result.stored(i, j)),
            decreases n - k,
        {
            proof {
                assert(dense.rows > 0) by {
                    if dense.rows == 0 {
                        assert(dense.rows * dense.columns == 0) by (nonlinear_arith)
                            requires
                                dense.rows == 0,
                        ;
                    }
                }
                crate::dense::lemma_flat_split(dense.rows as int, dense.columns as int, k as int);
            }
            let value = dense.values[k];
            let i = k % dense.rows;
            let j = k / dense.rows;
            if value != 0i64 {
                let ghost before = result;
                let r = result.set(i, j, value);
                proof {
                    assert(before.in_bounds(i as int, j as int));
                    assert(result.set_post(before, i as int, j as int, value));
                    assert(result.entry(i as int, j as int) == dense.at(i as int, j as int));
                    assert forall|i2: int, j2: int|
                        result.in_bounds(i2, j2) && j2 * dense.rows + i2 < k + 1 implies (
                    #[trigger] result.stored(i2, j2) == (dense.at(i2, j2) != 0i64)
                        && result.entry(i2, j2) == dense.at(i2, j2)) by {
                        if !(i2 == i as int && j2 == j as int) {
                            crate::dense::lemma_flat_index_injective(
                                dense.rows as int,
                                dense.columns as int,
                                i2,
                                j2,
                                i as int,
                                j as int,
                            );
                        }
                    }
                    assert forall|i2: int, j2: int|
                        result.in_bounds(i2, j2) && j2 * dense.rows + i2 >= k + 1 implies !(
                    #[trigger] result.stored(i2, j2)) by {
                        assert(!(i2 == i as int && j2 == j as int));
                    }
                }
            } else {
                proof {
                    assert forall|i2: int, j2: int|
                        result.in_bounds(i2, j2) && j2 * dense.rows + i2 < k + 1 implies (
                    #[trigger] result.stored(i2, j2) == (dense.at(i2, j2) != 0i64)
                        && result.entry(i2, j2) == dense.at(i2, j2)) by {
                        if i2 == i as int && j2 == j as int {
                            assert(dense.at(i2, j2) == dense.values@[k as int]);
                        }
                    }
                }
            }
            k += 1;
        }
        proof {
            assert forall|i: int, j: int| result.in_bounds(i, j) implies j * dense.rows + i
                < n by {
                crate::dense::lemma_flat_index(dense.rows as int, dense.columns as int, i, j);
            }
        }
        result
    }

    /// Convert the matrix into its dense representation.
    #[verifier::loop_isolation(false)]
    #[verifier::rlimit(100)]
    pub fn to_dense(&self) -> (result: Dense)
        requires
            self.wf(),
            self.rows * self.columns <= usize::MAX,
        ensures
            result.wf(),
            result.rows == self.rows,
            result.columns == self.columns,
            forall|i: int, j: int|
                self.in_bounds(i, j) ==> #[trigger] result.at(i, j) == self.entry(i, j),
    {
        let mut result = Dense::new(self.rows, self.columns);
        let mut it = self.iter();
        let nnz = self.nonzeros;
        while it.taken < nnz
            invariant
                it.wf(),
                it.matrix == self,
                nnz == self.nonzeros,
                result.wf(),
                result.rows == self.rows,
                result.columns == self.columns,
                forall|i: int, j: int|
                    self.in_bounds(i, j) && self.stored(i, j) && self.slot(i, j) < it.taken
                        ==> #[trigger] result.at(i, j) == self.entry(i, j),
                forall|i: int, j: int|
                    self.in_bounds(i, j) && !(self.stored(i, j) && self.slot(i, j) < it.taken)
                        ==> #[trigger] result.at(i, j) == 0i64,
            decreases nnz - it.taken,
        {
            let ghost k = it.taken as int;
            match it.next() {
                None => {
                    proof {
                        assert(false);
                    }
                },
                Some(t) => {
                    proof {
                        self.lemma_slot_coords(k);
                    }
                    let ghost before = result;
                    result.set(t.0, t.1, t.2);
                    proof {
                        assert forall|i: int, j: int|
                            self.in_bounds(i, j) && self.stored(i, j) && self.slot(i, j) < k + 1
                                implies #[trigger] result.at(i, j) == self.entry(i, j) by {
                            if self.slot(i, j) == k {
                                self.stored_slot_coincide(i, j, k);
                            }
                        }
                        assert forall|i: int, j: int|
                            self.in_bounds(i, j) && !(self.stored(i, j) && self.slot(i, j) < k
                                + 1) implies #[trigger] result.at(i, j) == 0i64 by {
                            assert(!(i == self.coord_i(k) && j == self.coord_j(k)));
                        }
                    }
                },
            }
        }
        proof {
            assert forall|i: int, j: int| self.in_bounds(i, j) implies #[trigger] result.at(i, j)
                == self.entry(i, j) by {
                if self.stored(i, j) {
                    let kk = self.stored_slot_helper(i, j);
                    self.lemma_entry_witness(i, j, kk);
                    self.lemma_slot_in_range(self.major_of(i, j), kk);
                }
            }
        }
        result
    }

    /// A coordinate whose slot is `k` is the coordinate of slot `k`.
    proof fn stored_slot_coincide(self, i: int, j: int, k: int)
        requires
            self.wf(),
            0 <= k < self.nonzeros,
            self.in_bounds(i, j),
            self.stored(i, j),
            self.slot(i, j) == k,
        ensures
            i == self.coord_i(k),
            j == self.coord_j(k),
    {
        let kk = self.stored_slot_helper(i, j);
        self.lemma_entry_witness(i, j, kk);
        self.lemma_slot_coords(k);
        self.lemma_major_at_unique(self.major_of(i, j), k);
    }

    /// The number of stored values that are numerically non-zero. This is
    /// independent of the `nonzeros` slot count: a slot may hold an explicit
    /// zero.
    pub fn nonzeros(&self) -> (result: usize)
        ensures
            result == count_nonzero(self.values@),
    {
        let mut count: usize = 0;
        let mut k: usize = 0;
        let n = self.values.len();
        while k < n
            invariant
                k <= n,
                n == self.values@.len(),
                count == count_nonzero(self.values@.subrange(0, k as int)),
                count <= k,
            decreases n - k,
        {
            proof {
                assert(self.values@.subrange(0, k as int + 1).drop_last() =~= self.values@.subrange(
                    0,
                    k as int,
                ));
                assert(self.values@.subrange(0, k as int + 1).last() == self.values@[k as int]);
            }
            if self.values[k] != 0i64 {
                count += 1;
            }
            k += 1;
        }
        proof {
            assert(self.values@.subrange(0, n as int) =~= self.values@);
        }
        count
    }
}

/// A sparse iterator of a compressed matrix. It yields each stored slot
/// once, in storage order, as a (row, column, value) triple. A fresh
/// traversal starts with every call to `Compressed::iter`.
pub struct Iterator<'l> {
    /// The matrix being traversed.
    pub matrix: &'l Compressed,
    /// The number of slots yielded so far.
    pub taken: usize,
    /// The major index whose slice holds the next slot.
    pub major: usize,
}

impl<'l> Iterator<'l> {
    /// The invariant of a traversal in progress.
    pub open spec fn wf(self) -> bool {
        &&& self.matrix.wf()
        &&& self.taken <= self.matrix.nonzeros
        &&& (self.taken < self.matrix.nonzeros ==> 0 <= self.major <= self.matrix.major_at(
            self.taken as int,
        ))
    }

    /// Yield the next stored slot, or nothing once every slot has been
    /// yielded.
    #[verifier::loop_isolation(false)]
    pub fn next(&mut self) -> (result: Option<(usize, usize, i64)>)
        requires
            old(self).wf(),
        ensures
            final(self).wf(),
            final(self).matrix == old(self).matrix,
            match result {
                None => old(self).taken == old(self).matrix.nonzeros && *final(self) == *old(
                    self,
                ),
                Some(t) => {
                    &&& (old(self).taken as int) < old(self).matrix.nonzeros
                    &&& final(self).taken == old(self).taken + 1
                    &&& t.0 as int == old(self).matrix.coord_i(old(self).taken as int)
                    &&& t.1 as int == old(self).matrix.coord_j(old(self).taken as int)
                    &&& t.2 == old(self).matrix.values@[old(self).taken as int]
                },
            },
    {
        let k = self.taken;
        if k == self.matrix.nonzeros {
            return None;
        }
        proof {
            self.matrix.lemma_major_at(k as int);
        }
        while self.matrix.offsets[self.major + 1] <= k
            invariant
                0 <= self.major <= self.matrix.major_at(k as int),
                self.taken == k,
                self.matrix == old(self).matrix,
            decreases self.matrix.major_at(k as int) - self.major,
        {
            proof {
                if self.major + 1 > self.matrix.major_at(k as int) {
                    assert(self.matrix.off(self.major as int + 1) > k);
                    assert(false);
                }
            }
            self.major += 1;
        }
        proof {
            assert(self.matrix.off(self.major as int) <= k) by {
                assert(self.matrix.off(self.major as int) <= self.matrix.off(
                    self.matrix.major_at(k as int),
                ));
            }
            self.matrix.lemma_major_at_unique(self.major as int, k as int);
            self.matrix.lemma_slot_coords(k as int);
            if k as int + 1 < self.matrix.nonzeros {
                self.matrix.lemma_major_at_monotone(k as int, k as int + 1);
            }
        }
        self.taken = k + 1;
        let value = self.matrix.values[k];
        let result = match self.matrix.format {
            Format::Column => (self.matrix.indices[k], self.major, value),
            Format::Row => (self.major, self.matrix.indices[k], value),
        };
        Some(result)
    }
}

/// Reading a coordinate right after assigning it yields exactly the value
/// assigned: over the matrix model, after `set` stores `v` at (`i`, `j`),
/// `entry` returns `v` there, which is what `get` hands back.
pub proof fn lemma_get_after_set(m: Compressed, mm: Compressed, i: int, j: int, v: i64)
    requires
        m.wf(),
        m.in_bounds(i, j),
        mm.set_post(m, i, j, v),
    ensures
        mm.stored(i, j),
        mm.entry(i, j) == v,
{
}

/// Retaining with a condition that accepted every slot is the identity:
/// the dimensions, the format, the slot count and all three arrays come out
/// exactly as they went in.
pub proof fn lemma_retain_all_is_identity(m: Compressed, mm: Compressed, keep: Seq<bool>)
    requires
        m.wf(),
        mm.retain_post(m, keep),
        forall|kk: int| 0 <= kk < keep.len() ==> keep[kk],
    ensures
        mm.rows == m.rows,
        mm.columns == m.columns,
        mm.format == m.format,
        mm.nonzeros == m.nonzeros,
        mm.values@ == m.values@,
        mm.indices@ == m.indices@,
        mm.offsets@ == m.offsets@,
{
    lemma_count_kept_all(keep, m.nonzeros as int);
    lemma_filter_kept_all(m.values@, keep, m.nonzeros as int);
    lemma_filter_kept_all(m.indices@, keep, m.nonzeros as int);
    assert(m.values@.subrange(0, m.nonzeros as int) =~= m.values@);
    assert(m.indices@.subrange(0, m.nonzeros as int) =~= m.indices@);
    assert forall|u: int| 0 <= u < mm.offsets@.len() implies mm.offsets@[u] == m.offsets@[u] by {
        assert(m.off(0) <= m.off(u) && m.off(u) <= m.off(m.major_dim()));
        lemma_count_kept_all(keep, m.off(u));
        assert(mm.off(u) == m.off(u));
    }
    assert(mm.offsets@ =~= m.offsets@);
}

/// Retaining with a condition that rejected every slot empties the matrix:
/// no slots are left and every offset is zero, while the dimensions and the
/// format stay as they were.
pub proof fn lemma_retain_none_is_empty(m: Compressed, mm: Compressed, keep: Seq<bool>)
    requires
        m.wf(),
        mm.retain_post(m, keep),
        forall|kk: int| 0 <= kk < keep.len() ==> !(#[trigger] keep[kk]),
    ensures
        mm.rows == m.rows,
        mm.columns == m.columns,
        mm.format == m.format,
        mm.nonzeros == 0,
        mm.values@.len() == 0,
        mm.indices@.len() == 0,
        mm.offsets@.len() == m.offsets@.len(),
        forall|u: int| 0 <= u < mm.offsets@.len() ==> mm.offsets@[u] == 0usize,
{
    lemma_kept_none(m.values@, keep, m.nonzeros as int);
    lemma_kept_none(m.indices@, keep, m.nonzeros as int);
    assert forall|u: int| 0 <= u < mm.offsets@.len() implies mm.offsets@[u] == 0usize by {
        assert(m.off(0) <= m.off(u) && m.off(u) <= m.off(m.major_dim()));
        lemma_kept_none(m.values@, keep, m.off(u));
        assert(mm.off(u) == 0);
    }
}

/// Converting a dense matrix to compressed form and back reproduces it
/// exactly: the compressed intermediate stores no explicit zeros, and every
/// element of the original buffer comes back unchanged.
pub proof fn lemma_dense_round_trip(d: Dense, c: Compressed, d2: Dense)
    requires
        d.wf(),
        c.rows == d.rows,
        c.columns == d.columns,
        forall|i: int, j: int| c.in_bounds(i, j) ==> #[trigger] c.entry(i, j) == d.at(i, j),
        d2.wf(),
        d2.rows == c.rows,
        d2.columns == c.columns,
        forall|i: int, j: int| c.in_bounds(i, j) ==> #[trigger] d2.at(i, j) == c.entry(i, j),
    ensures
        d2.values@ == d.values@,
{
    assert forall|t: int| 0 <= t < d.values@.len() implies d2.values@[t] == d.values@[t] by {
        assert(d.rows > 0) by {
            if d.rows == 0 {
                assert(d.rows * d.columns == 0) by (nonlinear_arith)
                    requires
                        d.rows == 0,
                ;
            }
        }
        crate::dense::lemma_flat_split(d.rows as int, d.columns as int, t);
        let i = t % d.rows as int;
        let j = t / d.rows as int;
        assert(c.in_bounds(i, j));
        assert(d2.at(i, j) == d.at(i, j));
    }
    assert(d2.values@ =~= d.values@);
}

/// The number of kept positions among the first `n` of `keep`.
pub open spec fn count_kept(keep: Seq<bool>, n: int) -> int
    decreases n,
{
    if n <= 0 {
        0
    } else {
        count_kept(keep, n - 1) + if keep[n - 1] {
            1int
        } else {
            0int
        }
    }
}

/// The first `n` elements of `s`, keeping only the positions that `keep`
/// marks, in their original order.
pub open spec fn filter_kept<A>(s: Seq<A>, keep: Seq<bool>, n: int) -> Seq<A>
    decreases n,
{
    if n <= 0 {
        Seq::empty()
    } else if keep[n - 1] {
        filter_kept(s, keep, n - 1).push(s[n - 1])
    } else {
        filter_kept(s, keep, n - 1)
    }
}

/// The filtered sequence has one element per kept position.
pub proof fn lemma_filter_kept_len<A>(s: Seq<A>, keep: Seq<bool>, n: int)
    ensures
        filter_kept(s, keep, n).len() == count_kept(keep, n),
        0 <= count_kept(keep, n),
        count_kept(keep, n) <= (if n >= 0 { n } else { 0 }),
    decreases n,
{
    if n > 0 {
        lemma_filter_kept_len(s, keep, n - 1);
    }
}

/// Counting kept positions is monotone, and grows at most by one per step.
pub proof fn lemma_count_kept_monotone(keep: Seq<bool>, n1: int, n2: int)
    requires
        n1 <= n2,
    ensures
        count_kept(keep, n1) <= count_kept(keep, n2),
        count_kept(keep, n2) - count_kept(keep, n1) <= n2 - n1,
    decreases n2 - n1,
{
    if n1 < n2 {
        lemma_count_kept_monotone(keep, n1, n2 - 1);
    }
}

/// Counting and filtering depend only on the first `n` marks.
pub proof fn lemma_kept_prefix<A>(s: Seq<A>, keep1: Seq<bool>, keep2: Seq<bool>, n: int)
    requires
        forall|l: int| 0 <= l < n ==> keep1[l] == keep2[l],
    ensures
        count_kept(keep1, n) == count_kept(keep2, n),
        filter_kept(s, keep1, n) == filter_kept(s, keep2, n),
    decreases n,
{
    if n > 0 {
        lemma_kept_prefix(s, keep1, keep2, n - 1);
    }
}

/// A kept position `k` lands at position `count_kept(keep, k)` of the
/// filtered sequence.
pub proof fn lemma_filter_kept_map<A>(s: Seq<A>, keep: Seq<bool>, n: int, k: int)
    requires
        0 <= k < n,
        keep[k],
    ensures
        count_kept(keep, k) < count_kept(keep, n),
        filter_kept(s, keep, n)[count_kept(keep, k)] == s[k],
    decreases n,
{
    lemma_filter_kept_len(s, keep, n - 1);
    if k == n - 1 {
        lemma_filter_kept_len(s, keep, k);
        assert(filter_kept(s, keep, n) == filter_kept(s, keep, n - 1).push(s[n - 1]));
        assert(filter_kept(s, keep, n)[count_kept(keep, k)] == s[k]);
    } else {
        lemma_filter_kept_map(s, keep, n - 1, k);
        lemma_count_kept_monotone(keep, n - 1, n);
        if keep[n - 1] {
            lemma_filter_kept_len(s, keep, k);
            assert(filter_kept(s, keep, n) == filter_kept(s, keep, n - 1).push(s[n - 1]));
            assert(count_kept(keep, k) < count_kept(keep, n - 1));
            assert(filter_kept(s, keep, n)[count_kept(keep, k)] == filter_kept(s, keep, n - 1)[count_kept(keep, k)]);
        } else {
            assert(filter_kept(s, keep, n) == filter_kept(s, keep, n - 1));
        }
    }
}

/// Every position of the filtered sequence comes from a kept position of the
/// original.
pub proof fn lemma_filter_kept_inv<A>(s: Seq<A>, keep: Seq<bool>, n: int, q: int) -> (k: int)
    requires
        0 <= q < count_kept(keep, n),
    ensures
        0 <= k < n,
        keep[k],
        count_kept(keep, k) == q,
        filter_kept(s, keep, n)[q] == s[k],
    decreases n,
{
    lemma_filter_kept_len(s, keep, n);
    if keep[n - 1] && q == count_kept(keep, n - 1) {
        lemma_filter_kept_len(s, keep, n - 1);
        n - 1
    } else {
        let k = lemma_filter_kept_inv(s, keep, n - 1, q);
        lemma_filter_kept_map(s, keep, n, k);
        k
    }
}

/// When every mark up to `n` is set, counting keeps everything.
pub proof fn lemma_count_kept_all(keep: Seq<bool>, n: int)
    requires
        forall|l: int| 0 <= l < n ==> keep[l],
    ensures
        count_kept(keep, n) == (if n >= 0 { n } else { 0 }),
    decreases n,
{
    if n > 0 {
        lemma_count_kept_all(keep, n - 1);
    }
}

/// When every mark up to `n` is set, filtering keeps the whole prefix.
pub proof fn lemma_filter_kept_all<A>(s: Seq<A>, keep: Seq<bool>, n: int)
    requires
        0 <= n <= s.len(),
        forall|l: int| 0 <= l < n ==> keep[l],
    ensures
        filter_kept(s, keep, n) == s.subrange(0, n),
    decreases n,
{
    if n > 0 {
        lemma_filter_kept_all(s, keep, n - 1);
        assert(s.subrange(0, n - 1).push(s[n - 1]) =~= s.subrange(0, n));
    } else {
        assert(filter_kept(s, keep, 0) =~= s.subrange(0, 0));
    }
}

/// When no mark up to `n` is set, nothing is counted and nothing is kept.
pub proof fn lemma_kept_none<A>(s: Seq<A>, keep: Seq<bool>, n: int)
    requires
        forall|l: int| 0 <= l < n ==> !keep[l],
    ensures
        count_kept(keep, n) == 0,
        filter_kept(s, keep, n) == Seq::<A>::empty(),
    decreases n,
{
    if n > 0 {
        lemma_kept_none(s, keep, n - 1);
    }
}

/// A range without kept positions adds nothing to the count.
pub proof fn lemma_count_kept_range_none(keep: Seq<bool>, n1: int, n2: int)
    requires
        n1 <= n2,
        forall|l: int| n1 <= l < n2 ==> !(#[trigger] keep[l]),
    ensures
        count_kept(keep, n2) == count_kept(keep, n1),
    decreases n2 - n1,
{
    if n1 < n2 {
        lemma_count_kept_range_none(keep, n1, n2 - 1);
    }
}

/// The number of elements of a sequence that are not zero.
pub open spec fn count_nonzero(s: Seq<i64>) -> int
    decreases s.len(),
{
    if s.len() == 0 {
        0
    } else {
        count_nonzero(s.drop_last()) + if s.last() == 0i64 {
            0int
        } else {
            1int
        }
    }
}

/// The count of non-zero values never exceeds the length counted over.
pub proof fn lemma_count_nonzero_le_len(s: Seq<i64>)
    ensures
        count_nonzero(s) <= s.len(),
        0 <= count_nonzero(s),
    decreases s.len(),
{
    if s.len() > 0 {
        lemma_count_nonzero_le_len(s.drop_last());
    }
}

/// The number of stored slots of a valid compressed matrix is at least the
/// number of its stored values that are numerically non-zero: a slot may hold
/// an explicit zero, so the two counts must never be conflated.
pub proof fn lemma_nonzeros_bounds_true_count(matrix: Compressed)
    requires
        matrix.wf(),
    ensures
        count_nonzero(matrix.values@) <= matrix.nonzeros,
{
    lemma_count_nonzero_le_len(matrix.values@);
}

} // verus!
