use vstd::prelude::*;
use crate::coo::CooMatrix;
use crate::spec::{
    count_below, in_shape, lemma_count_below_bounds, lemma_count_below_step, lemma_count_below_zero,
    lemma_row_entries_len, lemma_row_entries_outside, lemma_row_entries_prefix, row_entries, row_sorted,
    zip3, MatrixView, cols_distinct, unique_positions, lemma_hcat_unique, lemma_unique_positions_by_index, fold_trace, hcat_entries, shifted, lemma_rows_equal_multiset, folds_to, left_identity,
};
use crate::error::SparseError;

verus! {

/// The shape facts of compressed-row storage: `off` has one more element
/// than there are rows, starts at zero, never decreases and ends at the
/// number of entries; `rows` names, for each stored entry, the row whose
/// offset range holds it.
pub open spec fn csr_layout(off: Seq<usize>, rows: Seq<usize>, cols: Seq<usize>, n: nat, nrows: usize, ncols: usize) -> bool {
    &&& off.len() == nrows + 1
    &&& off[0] == 0
    &&& off[nrows as int] == n
    &&& rows.len() == n
    &&& cols.len() == n
    &&& forall|i: int, j: int| 0 <= i <= j <= nrows ==> #[trigger] off[i] <= #[trigger] off[j]
    &&& forall|k: int|
        0 <= k < n ==> {
            &&& #[trigger] rows[k] < nrows
            &&& off[rows[k] as int] <= k < off[rows[k] + 1]
            &&& cols[k] < ncols
        }
}

/// Row `r`'s stored (column, value) pairs, read off its offset range.
pub open spec fn segment<T>(off: Seq<usize>, cols: Seq<usize>, vals: Seq<T>, r: int) -> Seq<(usize, T)> {
    Seq::new((off[r + 1] - off[r]) as nat, |j: int| (cols[off[r] + j], vals[off[r] + j]))
}

proof fn lemma_segment_prefix<T>(
    off: Seq<usize>,
    rows: Seq<usize>,
    cols: Seq<usize>,
    vals: Seq<T>,
    nrows: usize,
    ncols: usize,
    r: usize,
    k: int,
)
    requires
        csr_layout(off, rows, cols, vals.len(), nrows, ncols),
        r < nrows,
        0 <= k <= vals.len(),
    ensures
        row_entries(zip3(rows, cols, vals).take(k), r) == segment(off, cols, vals, r as int).take(
            if k <= off[r as int] {
                0
            } else if k >= off[r + 1] {
                off[r + 1] - off[r as int]
            } else {
                k - off[r as int]
            },
        ),
    decreases k,
{
    let z = zip3(rows, cols, vals);
    let seg = segment(off, cols, vals, r as int);
    assert(off[r as int] <= off[r + 1]);
    if k == 0 {
        assert(seg.take(0) =~= Seq::<(usize, T)>::empty());
    } else {
        lemma_segment_prefix(off, rows, cols, vals, nrows, ncols, r, k - 1);
        assert(z.take(k).drop_last() =~= z.take(k - 1));
        let q = k - 1;
        let rq = rows[q];
        assert(off[rq as int] <= q < off[rq + 1]);
        if rq == r {
            assert(seg.take(k - off[r as int]) =~= seg.take(q - off[r as int]).push(seg[q - off[r as int]]));
        } else if rq < r {
            assert(off[rq + 1] <= off[r as int]);
        } else {
            assert(off[r + 1] <= off[rq as int]);
        }
    }
}

proof fn lemma_segment<T>(
    off: Seq<usize>,
    rows: Seq<usize>,
    cols: Seq<usize>,
    vals: Seq<T>,
    nrows: usize,
    ncols: usize,
    r: usize,
)
    requires
        csr_layout(off, rows, cols, vals.len(), nrows, ncols),
        r < nrows,
    ensures
        row_entries(zip3(rows, cols, vals), r) == segment(off, cols, vals, r as int),
{
    let z = zip3(rows, cols, vals);
    lemma_segment_prefix(off, rows, cols, vals, nrows, ncols, r, vals.len() as int);
    assert(z.take(vals.len() as int) =~= z);
    assert(off[r + 1] <= off[nrows as int]);
    let seg = segment(off, cols, vals, r as int);
    assert(seg.take(off[r + 1] - off[r as int]) =~= seg);
}

/// Every position below the last offset lies in some row's range.
proof fn lemma_find_row(off: Seq<usize>, top: int, k: int) -> (r: int)
    requires
        0 < top < off.len(),
        off[0] <= k < off[top],
        forall|i: int, j: int| 0 <= i <= j <= top ==> #[trigger] off[i] <= #[trigger] off[j],
    ensures
        0 <= r < top,
        off[r] <= k < off[r + 1],
    decreases top,
{
    if off[top - 1] <= k {
        top - 1
    } else {
        lemma_find_row(off, top - 1, k)
    }
}

/// A sparse matrix in compressed-row form: a row-offset sequence and
/// parallel column-index and value sequences ordered by row.
pub struct CsrMatrix<T> {
    nrows: usize,
    ncols: usize,
    row_offsets: Vec<usize>,
    col_indices: Vec<usize>,
    values: Vec<T>,
    rows: Ghost<Seq<usize>>,
}

impl<T> View for CsrMatrix<T> {
    type V = MatrixView<T>;

    closed spec fn view(&self) -> MatrixView<T> {
        MatrixView {
            nrows: self.nrows,
            ncols: self.ncols,
            entries: zip3(self.rows@, self.col_indices@, self.values@),
        }
    }
}

impl<T> CsrMatrix<T> {
    #[verifier::type_invariant]
    pub(crate) closed spec fn well_formed(self) -> bool {
        &&& csr_layout(self.row_offsets@, self.rows@, self.col_indices@, self.values@.len(), self.nrows, self.ncols)
        &&& unique_positions(zip3(self.rows@, self.col_indices@, self.values@))
    }
}

impl<T: Copy> CsrMatrix<T> {
    /// Converts a coordinate matrix: the result holds the same entries,
    /// grouped by row in increasing row order, and within each row in the
    /// order in which they were stored. A source that stores no position
    /// twice gives a result that stores none twice.
    pub fn from_coo(coo: &CooMatrix<T>) -> (m: CsrMatrix<T>)
        ensures
            m@.nrows == coo@.nrows,
            m@.ncols == coo@.ncols,
            m@.entries.len() == coo@.entries.len(),
            forall|r: usize| #[trigger] row_entries(m@.entries, r) == row_entries(coo@.entries, r),
            m@.entries.to_multiset() == coo@.entries.to_multiset(),
            unique_positions(m@.entries),
            row_sorted(m@.entries),
            in_shape(m@.entries, m@.nrows, m@.ncols),
    {
        let n = coo.nnz();
        let ri = coo.row_indices();
        let ci = coo.col_indices();
        let vs = coo.values();
        proof {
            assert(zip3(ri@, ci@, vs@) =~= coo@.entries);
        }
        let (off, cols, vals, rows) = group_by_row(coo.nrows(), coo.ncols(), ri, ci, vs);
        proof {
            assert forall|q: usize| cols_distinct(#[trigger] row_entries(zip3(rows@, cols@, vals@), q)) by {
                assert(row_entries(zip3(rows@, cols@, vals@), q) == row_entries(coo@.entries, q));
            }
        }
        let m = CsrMatrix { nrows: coo.nrows(), ncols: coo.ncols(), row_offsets: off, col_indices: cols, values: vals, rows };
        proof {
            lemma_csr_in_shape(m.row_offsets@, m.rows@, m.col_indices@, m.values@, m.nrows, m.ncols);
            lemma_csr_sorted(m.row_offsets@, m.rows@, m.col_indices@, m.values@, m.nrows, m.ncols);
            lemma_rows_equal_multiset(m@.entries, coo@.entries);
        }
        m
    }

    pub fn nrows(&self) -> (r: usize)
        ensures
            r == self@.nrows,
    {
        self.nrows
    }

    pub fn ncols(&self) -> (r: usize)
        ensures
            r == self@.ncols,
    {
        self.ncols
    }

    /// The number of stored entries, every one of which lies inside the
    /// declared shape at a position stored only once.
    pub fn nnz(&self) -> (r: usize)
        ensures
            r == self@.entries.len(),
            in_shape(self@.entries, self@.nrows, self@.ncols),
            unique_positions(self@.entries),
    {
        proof {
            use_type_invariant(self);
            lemma_csr_in_shape(self.row_offsets@, self.rows@, self.col_indices@, self.values@, self.nrows, self.ncols);
        }
        self.values.len()
    }

    /// The stored values, in row order.
    pub fn values(&self) -> (r: &[T])
        ensures
            r@ == self@.entries.map_values(|e: (usize, usize, T)| e.2),
    {
        assert(self.values@ =~= self@.entries.map_values(|e: (usize, usize, T)| e.2));
        self.values.as_slice()
    }

    /// The column index of each stored entry, in row order.
    pub fn col_indices(&self) -> (r: &[usize])
        ensures
            r@ == self@.entries.map_values(|e: (usize, usize, T)| e.1),
    {
        proof {
            use_type_invariant(self);
        }
        assert(self.col_indices@ =~= self@.entries.map_values(|e: (usize, usize, T)| e.1));
        self.col_indices.as_slice()
    }

    /// The row offsets: entry `k` belongs to row `r` exactly when
    /// `r[row] <= k < r[row + 1]`.
    pub fn row_offsets(&self) -> (r: &[usize])
        ensures
            r@.len() == self@.nrows + 1,
            r@[0] == 0,
            r@[self@.nrows as int] == self@.entries.len(),
            forall|i: int, j: int| 0 <= i <= j <= self@.nrows ==> #[trigger] r@[i] <= #[trigger] r@[j],
            forall|k: int, q: int|
                0 <= k < self@.entries.len() && 0 <= q < self@.nrows ==> (#[trigger] self@.entries[k].0 == q
                    <==> #[trigger] r@[q] <= k < r@[q + 1]),
    {
        proof {
            use_type_invariant(self);
            assert forall|k: int, q: int|
                0 <= k < self@.entries.len() && 0 <= q < self@.nrows implies (#[trigger] self@.entries[k].0 == q
                    <==> #[trigger] self.row_offsets@[q] <= k < self.row_offsets@[q + 1]) by {
                let rk = self.rows@[k];
                assert(self.row_offsets@[rk as int] <= k < self.row_offsets@[rk + 1]);
                if rk < q {
                    assert(self.row_offsets@[rk + 1] <= self.row_offsets@[q]);
                } else if rk > q {
                    assert(self.row_offsets@[q + 1] <= self.row_offsets@[rk as int]);
                }
            }
        }
        self.row_offsets.as_slice()
    }

    /// Lists the entries as a coordinate matrix, in row order.
    pub fn to_coo(&self) -> (c: CooMatrix<T>)
        ensures
            c@ == self@,
    {
        proof {
            use_type_invariant(self);
        }
        let ghost z = self@.entries;
        let n = self.values.len();
        let mut ri: Vec<usize> = Vec::new();
        let mut ci: Vec<usize> = Vec::new();
        let mut vs: Vec<T> = Vec::new();
        let mut r: usize = 0;
        while r < self.nrows
            invariant
                self.well_formed(),
                z == self@.entries,
                n == z.len(),
                r <= self.nrows,
                ri@.len() == vs@.len(),
                ci@.len() == vs@.len(),
                zip3(ri@, ci@, vs@) == z.take(self.row_offsets@[r as int] as int),
            decreases self.nrows - r,
        {
            let end = self.row_offsets[r + 1];
            let mut k: usize = self.row_offsets[r];
            proof {
                assert(self.row_offsets@[r as int] <= self.row_offsets@[r + 1] <= self.row_offsets@[self.nrows as int]);
            }
            while k < end
                invariant
                    self.well_formed(),
                    z == self@.entries,
                    n == z.len(),
                    r < self.nrows,
                    end == self.row_offsets@[r + 1],
                    self.row_offsets@[r as int] <= k <= end <= n,
                    ri@.len() == vs@.len(),
                    ci@.len() == vs@.len(),
                    zip3(ri@, ci@, vs@) == z.take(k as int),
                decreases end - k,
            {
                let ghost before = zip3(ri@, ci@, vs@);
                proof {
                    let rk = self.rows@[k as int];
                    assert(self.row_offsets@[rk as int] <= k < self.row_offsets@[rk + 1]);
                    if rk < r {
                        assert(self.row_offsets@[rk + 1] <= self.row_offsets@[r as int]);
                    } else if rk > r {
                        assert(self.row_offsets@[r + 1] <= self.row_offsets@[rk as int]);
                    }
                    assert(rk == r);
                    assert(z[k as int] == (r, self.col_indices@[k as int], self.values@[k as int]));
                }
                ri.push(r);
                ci.push(self.col_indices[k]);
                vs.push(self.values[k]);
                proof {
                    assert(zip3(ri@, ci@, vs@) =~= before.push((r, self.col_indices@[k as int], self.values@[k as int])));
                    assert(z.take(k + 1) =~= z.take(k as int).push(z[k as int]));
                }
                k += 1;
            }
            r += 1;
        }
        proof {
            assert(z.take(n as int) =~= z);
            lemma_csr_in_shape(self.row_offsets@, self.rows@, self.col_indices@, self.values@, self.nrows, self.ncols);
        }
        CooMatrix::from_parts(self.nrows, self.ncols, ri, ci, vs)
    }

    /// A matrix with this one's layout and the given values.
    fn with_values(&self, values: Vec<T>) -> (m: CsrMatrix<T>)
        requires
            values@.len() == self@.entries.len(),
        ensures
            m@.nrows == self@.nrows,
            m@.ncols == self@.ncols,
            m@.entries.len() == self@.entries.len(),
            forall|k: int| 0 <= k < m@.entries.len() ==> #[trigger] m@.entries[k] == (self@.entries[k].0, self@.entries[k].1, values@[k]),
    {
        proof {
            use_type_invariant(self);
            let old = zip3(self.rows@, self.col_indices@, self.values@);
            let new = zip3(self.rows@, self.col_indices@, values@);
            lemma_unique_positions_by_index(old);
            lemma_unique_positions_by_index(new);
            assert forall|i: int, j: int| 0 <= i < j < new.len() implies (#[trigger] new[i].0 != #[trigger] new[j].0
                || new[i].1 != new[j].1) by {
                assert(old[i].0 == new[i].0 && old[i].1 == new[i].1);
                assert(old[j].0 == new[j].0 && old[j].1 == new[j].1);
            }
        }
        CsrMatrix {
            nrows: self.nrows,
            ncols: self.ncols,
            row_offsets: self.row_offsets.clone(),
            col_indices: self.col_indices.clone(),
            values,
            rows: Ghost(self.rows@),
        }
    }

    /// Scales each stored value by the vector element at the same storage
    /// position: value `k` becomes `times(vec[k], value k)`. This pairs values
    /// with the vector by storage order, not by row. The vector must hold one
    /// element per row; a matrix with more stored entries than rows leaves
    /// some value without an element, and both cases report the shapes. See
    /// `scale_rows` for scaling by row.
    pub fn multiply_vec<F: Fn(T, T) -> T>(&self, vec: &Vec<T>, times: F) -> (r: Result<CsrMatrix<T>, SparseError>)
        requires
            forall|a: T, b: T| times.requires((a, b)),
        ensures
            (vec@.len() == self@.nrows && self@.entries.len() <= self@.nrows) <==> r.is_ok(),
            r.is_err() ==> r == Err::<CsrMatrix<T>, SparseError>(
                SparseError::Shape { left: (self@.nrows, self@.ncols), right: (vec@.len() as usize, 1) },
            ),
            r matches Ok(m) ==> {
                &&& m@.nrows == self@.nrows
                &&& m@.ncols == self@.ncols
                &&& m@.entries.len() == self@.entries.len()
                &&& forall|k: int| 0 <= k < m@.entries.len() ==> {
                    &&& #[trigger] m@.entries[k].0 == self@.entries[k].0
                    &&& m@.entries[k].1 == self@.entries[k].1
                    &&& call_ensures(times, (vec@[k], self@.entries[k].2), m@.entries[k].2)
                }
            },
            (forall|k: int| 0 <= k < vec@.len() ==> left_identity(times, #[trigger] vec@[k])) ==> (r matches Ok(m)
                ==> m@ == self@),
    {
        if vec.len() != self.nrows || self.values.len() > self.nrows {
            return Err(SparseError::Shape { left: (self.nrows, self.ncols), right: (vec.len(), 1) });
        }
        let n = self.values.len();
        let mut out: Vec<T> = Vec::new();
        let mut k: usize = 0;
        while k < n
            invariant
                forall|a: T, b: T| times.requires((a, b)),
                n == self.values@.len(),
                n <= vec@.len(),
                k <= n,
                out@.len() == k,
                forall|q: int| 0 <= q < k ==> call_ensures(times, (vec@[q], self.values@[q]), #[trigger] out@[q]),
            decreases n - k,
        {
            out.push(times(vec[k], self.values[k]));
            k += 1;
        }
        let m = self.with_values(out);
        proof {
            assert forall|q: int| 0 <= q < n implies call_ensures(times, (vec@[q], #[trigger] self@.entries[q].2), m@.entries[q].2) by {
                assert(self@.entries[q].2 == self.values@[q]);
            }
            if forall|k: int| 0 <= k < vec@.len() ==> left_identity(times, #[trigger] vec@[k]) {
                assert forall|q: int| 0 <= q < n implies #[trigger] m@.entries[q] == self@.entries[q] by {
                    assert(left_identity(times, vec@[q]));
                    assert(call_ensures(times, (vec@[q], self.values@[q]), out@[q]));
                    assert(self@.entries[q].2 == self.values@[q]);
                    assert(m@.entries[q].2 == out@[q]);
                }
                assert(m@.entries =~= self@.entries);
            }
        }
        Ok(m)
    }

    /// Scales each stored value by the vector element of its row: an entry
    /// of row `i` with value `a` becomes `times(vec[i], a)`. The vector must
    /// hold one element per row.
    pub fn scale_rows<F: Fn(T, T) -> T>(&self, vec: &Vec<T>, times: F) -> (r: Result<CsrMatrix<T>, SparseError>)
        requires
            forall|a: T, b: T| times.requires((a, b)),
        ensures
            (vec@.len() == self@.nrows) <==> r.is_ok(),
            r.is_err() ==> r == Err::<CsrMatrix<T>, SparseError>(
                SparseError::Shape { left: (self@.nrows, self@.ncols), right: (vec@.len() as usize, 1) },
            ),
            r matches Ok(m) ==> {
                &&& m@.nrows == self@.nrows
                &&& m@.ncols == self@.ncols
                &&& m@.entries.len() == self@.entries.len()
                &&& forall|k: int| 0 <= k < m@.entries.len() ==> {
                    &&& #[trigger] m@.entries[k].0 == self@.entries[k].0
                    &&& m@.entries[k].1 == self@.entries[k].1
                    &&& call_ensures(times, (vec@[self@.entries[k].0 as int], self@.entries[k].2), m@.entries[k].2)
                }
            },
            (forall|k: int| 0 <= k < vec@.len() ==> left_identity(times, #[trigger] vec@[k])) ==> (r matches Ok(m)
                ==> m@ == self@),
    {
        proof {
            use_type_invariant(self);
        }
        if vec.len() != self.nrows {
            return Err(SparseError::Shape { left: (self.nrows, self.ncols), right: (vec.len(), 1) });
        }
        let n = self.values.len();
        let mut out: Vec<T> = Vec::new();
        let mut r: usize = 0;
        while r < self.nrows
            invariant
                self.well_formed(),
                forall|a: T, b: T| times.requires((a, b)),
                n == self.values@.len(),
                vec@.len() == self.nrows,
                r <= self.nrows,
                out@.len() == self.row_offsets@[r as int],
                forall|q: int| 0 <= q < out@.len() ==> call_ensures(times, (vec@[self.rows@[q] as int], self.values@[q]), #[trigger] out@[q]),
            decreases self.nrows - r,
        {
            let end = self.row_offsets[r + 1];
            let mut k: usize = self.row_offsets[r];
            proof {
                assert(self.row_offsets@[r as int] <= self.row_offsets@[r + 1] <= self.row_offsets@[self.nrows as int]);
            }
            while k < end
                invariant
                    self.well_formed(),
                    forall|a: T, b: T| times.requires((a, b)),
                    n == self.values@.len(),
                    vec@.len() == self.nrows,
                    r < self.nrows,
                    end == self.row_offsets@[r + 1],
                    self.row_offsets@[r as int] <= k <= end <= n,
                    out@.len() == k,
                    forall|q: int| 0 <= q < out@.len() ==> call_ensures(times, (vec@[self.rows@[q] as int], self.values@[q]), #[trigger] out@[q]),
                decreases end - k,
            {
                proof {
                    let rk = self.rows@[k as int];
                    assert(self.row_offsets@[rk as int] <= k < self.row_offsets@[rk + 1]);
                    if rk < r {
                        assert(self.row_offsets@[rk + 1] <= self.row_offsets@[r as int]);
                    } else if rk > r {
                        assert(self.row_offsets@[r + 1] <= self.row_offsets@[rk as int]);
                    }
                }
                out.push(times(vec[r], self.values[k]));
                k += 1;
            }
            r += 1;
        }
        let m = self.with_values(out);
        proof {
            if forall|k: int| 0 <= k < vec@.len() ==> left_identity(times, #[trigger] vec@[k]) {
                assert forall|q: int| 0 <= q < n implies #[trigger] m@.entries[q] == self@.entries[q] by {
                    assert(self.rows@[q] < self.nrows);
                    assert(left_identity(times, vec@[self.rows@[q] as int]));
                    assert(call_ensures(times, (vec@[self.rows@[q] as int], self.values@[q]), out@[q]));
                    assert(self@.entries[q].2 == self.values@[q]);
                    assert(m@.entries[q].2 == out@[q]);
                    assert(m@.entries[q].0 == self@.entries[q].0);
                    assert(m@.entries[q].1 == self@.entries[q].1);
                }
                assert(m@.entries =~= self@.entries);
            }
        }
        Ok(m)
    }

    /// Multiplies stored values pairwise, in storage order: value `k` becomes
    /// `times(value k, other's value k)`. Both matrices must have the same shape
    /// and the same number of stored entries; the caller is responsible for
    /// their sparsity patterns coinciding.
    pub fn multiply_csr<F: Fn(T, T) -> T>(&self, other: &CsrMatrix<T>, times: F) -> (r: Result<CsrMatrix<T>, SparseError>)
        requires
            forall|a: T, b: T| times.requires((a, b)),
        ensures
            (other@.nrows == self@.nrows && other@.ncols == self@.ncols && other@.entries.len() == self@.entries.len())
                <==> r.is_ok(),
            r.is_err() ==> r == Err::<CsrMatrix<T>, SparseError>(
                SparseError::Shape { left: (self@.nrows, self@.ncols), right: (other@.nrows, other@.ncols) },
            ),
            r matches Ok(m) ==> {
                &&& m@.nrows == self@.nrows
                &&& m@.ncols == self@.ncols
                &&& m@.entries.len() == self@.entries.len()
                &&& forall|k: int| 0 <= k < m@.entries.len() ==> {
                    &&& #[trigger] m@.entries[k].0 == self@.entries[k].0
                    &&& m@.entries[k].1 == self@.entries[k].1
                    &&& call_ensures(times, (self@.entries[k].2, other@.entries[k].2), m@.entries[k].2)
                }
            },
    {
        if other.nrows != self.nrows || other.ncols != self.ncols || other.values.len() != self.values.len() {
            return Err(SparseError::Shape { left: (self.nrows, self.ncols), right: (other.nrows, other.ncols) });
        }
        let n = self.values.len();
        let mut out: Vec<T> = Vec::new();
        let mut k: usize = 0;
        while k < n
            invariant
                forall|a: T, b: T| times.requires((a, b)),
                n == self.values@.len(),
                n == other.values@.len(),
                k <= n,
                out@.len() == k,
                forall|q: int| 0 <= q < k ==> call_ensures(times, (self.values@[q], other.values@[q]), #[trigger] out@[q]),
            decreases n - k,
        {
            out.push(times(self.values[k], other.values[k]));
            k += 1;
        }
        let m = self.with_values(out);
        proof {
            assert forall|q: int| 0 <= q < n implies call_ensures(times, (#[trigger] self@.entries[q].2, other@.entries[q].2), m@.entries[q].2) by {
                assert(self@.entries[q].2 == self.values@[q]);
                assert(other@.entries[q].2 == other.values@[q]);
            }
        }
        Ok(m)
    }

    /// Sums the stored values of each row: element `i` of the result folds
    /// `plus`, starting from `zero`, over row `i`'s values in storage order.
    /// A row with no entries gives `zero`.
    pub fn sumnnz<F: Fn(T, T) -> T>(&self, zero: T, plus: F) -> (r: Vec<T>)
        requires
            forall|a: T, b: T| plus.requires((a, b)),
        ensures
            r@.len() == self@.nrows,
            forall|i: int| 0 <= i < self@.nrows ==> folds_to(plus, zero, row_entries(self@.entries, i as usize).map_values(|e: (usize, T)| e.1), #[trigger] r@[i]),
            self@.entries.len() == 0 ==> r@ == Seq::new(self@.nrows as nat, |i: int| zero),
    {
        proof {
            use_type_invariant(self);
        }
        let ghost off = self.row_offsets@;
        let mut out: Vec<T> = Vec::new();
        let mut r: usize = 0;
        while r < self.nrows
            invariant
                self.well_formed(),
                off == self.row_offsets@,
                forall|a: T, b: T| plus.requires((a, b)),
                r <= self.nrows,
                out@.len() == r,
                forall|i: int| 0 <= i < r ==> folds_to(plus, zero, segment(off, self.col_indices@, self.values@, i).map_values(|e: (usize, T)| e.1), #[trigger] out@[i]),
            decreases self.nrows - r,
        {
            let ghost seg = segment(off, self.col_indices@, self.values@, r as int);
            let end = self.row_offsets[r + 1];
            let start = self.row_offsets[r];
            let mut k: usize = start;
            let mut acc = zero;
            let ghost mut trace: Seq<T> = seq![zero];
            proof {
                assert(off[r as int] <= off[r + 1] <= off[self.nrows as int]);
            }
            while k < end
                invariant
                    self.well_formed(),
                    off == self.row_offsets@,
                    forall|a: T, b: T| plus.requires((a, b)),
                    r < self.nrows,
                    start == off[r as int],
                    end == off[r + 1],
                    seg == segment(off, self.col_indices@, self.values@, r as int),
                    start <= k <= end <= self.values@.len(),
                    trace.len() == k - start + 1,
                    trace[0] == zero,
                    trace.last() == acc,
                    forall|i: int| 0 <= i < k - start ==> call_ensures(plus, (#[trigger] trace[i], seg[i].1), trace[i + 1]),
                decreases end - k,
            {
                let ghost prev = acc;
                acc = plus(acc, self.values[k]);
                proof {
                    assert(seg[k - start].1 == self.values@[k as int]);
                    trace = trace.push(acc);
                }
                k += 1;
            }
            proof {
                let vals = seg.map_values(|e: (usize, T)| e.1);
                assert(fold_trace(plus, zero, vals, trace));
            }
            out.push(acc);
            r += 1;
        }
        proof {
            assert forall|i: int| 0 <= i < self.nrows implies folds_to(plus, zero, row_entries(self@.entries, i as usize).map_values(|e: (usize, T)| e.1), #[trigger] out@[i]) by {
                lemma_segment(off, self.rows@, self.col_indices@, self.values@, self.nrows, self.ncols, i as usize);
            }
            if self.values@.len() == 0 {
                assert forall|i: int| 0 <= i < self.nrows implies #[trigger] out@[i] == zero by {
                    lemma_segment(off, self.rows@, self.col_indices@, self.values@, self.nrows, self.ncols, i as usize);
                    assert(off[i] <= off[i + 1] <= off[self.nrows as int]);
                    let vals = segment(off, self.col_indices@, self.values@, i).map_values(|e: (usize, T)| e.1);
                    assert(folds_to(plus, zero, vals, out@[i]));
                    let w = choose|w: Seq<T>| #[trigger] fold_trace(plus, zero, vals, w) && w.last() == out@[i];
                    assert(w.len() == 1);
                }
                assert(out@ =~= Seq::new(self.nrows as nat, |i: int| zero));
            }
        }
        out
    }
}


/// Places the columns of `m2` to the right of those of `m1`. The result
/// holds, row by row, the entries of `m1` followed by those of `m2` with
/// their columns moved right by `m1`'s column count. Both operands must have
/// the same number of rows.
pub fn hcat<T: Copy>(m1: &CooMatrix<T>, m2: &CooMatrix<T>) -> (r: Result<CsrMatrix<T>, SparseError>)
    requires
        m1@.ncols + m2@.ncols <= usize::MAX,
        m1@.entries.len() + m2@.entries.len() <= usize::MAX,
    ensures
        (m1@.nrows == m2@.nrows) <==> r.is_ok(),
        r.is_err() ==> r == Err::<CsrMatrix<T>, SparseError>(
            SparseError::Shape { left: (m1@.nrows, m1@.ncols), right: (m2@.nrows, m2@.ncols) },
        ),
        r matches Ok(m) ==> {
            &&& m@.nrows == m1@.nrows
            &&& m@.ncols == m1@.ncols + m2@.ncols
            &&& forall|q: usize| #[trigger] row_entries(m@.entries, q)
                == row_entries(hcat_entries(m1@.entries, m2@.entries, m1@.ncols), q)
            &&& m@.entries.to_multiset() == hcat_entries(m1@.entries, m2@.entries, m1@.ncols).to_multiset()
            &&& row_sorted(m@.entries)
        },
        r matches Ok(m) ==> unique_positions(m@.entries),
{
    if m1.nrows() != m2.nrows() {
        return Err(SparseError::Shape { left: (m1.nrows(), m1.ncols()), right: (m2.nrows(), m2.ncols()) });
    }
    let nrows = m1.nrows();
    let c1 = m1.ncols();
    let ncols = c1 + m2.ncols();
    let n1 = m1.nnz();
    let n2 = m2.nnz();
    let ghost s1 = m1@.entries;
    let ghost s2 = m2@.entries;
    let ghost target = hcat_entries(s1, s2, c1);
    let (i1, j1, v1) = (m1.row_indices(), m1.col_indices(), m1.values());
    let (i2, j2, v2) = (m2.row_indices(), m2.col_indices(), m2.values());
    let mut ri: Vec<usize> = Vec::new();
    let mut ci: Vec<usize> = Vec::new();
    let mut vs: Vec<T> = Vec::new();
    let mut k: usize = 0;
    while k < n1
        invariant
            k <= n1,
            n1 == s1.len(),
            i1@ == s1.map_values(|e: (usize, usize, T)| e.0),
            j1@ == s1.map_values(|e: (usize, usize, T)| e.1),
            v1@ == s1.map_values(|e: (usize, usize, T)| e.2),
            ri@.len() == vs@.len(),
            ci@.len() == vs@.len(),
            zip3(ri@, ci@, vs@) == s1.take(k as int),
        decreases n1 - k,
    {
        let ghost before = zip3(ri@, ci@, vs@);
        ri.push(i1[k]);
        ci.push(j1[k]);
        vs.push(v1[k]);
        proof {
            assert(zip3(ri@, ci@, vs@) =~= before.push(s1[k as int]));
            assert(s1.take(k + 1) =~= s1.take(k as int).push(s1[k as int]));
        }
        k += 1;
    }
    proof {
        assert(s1.take(n1 as int) =~= s1);
    }
    let mut k: usize = 0;
    while k < n2
        invariant
            k <= n2,
            n1 == s1.len(),
            n2 == s2.len(),
            n1 + n2 <= usize::MAX,
            c1 + m2@.ncols == ncols,
            in_shape(s2, nrows, m2@.ncols),
            in_shape(s1, nrows, c1),
            i2@ == s2.map_values(|e: (usize, usize, T)| e.0),
            j2@ == s2.map_values(|e: (usize, usize, T)| e.1),
            v2@ == s2.map_values(|e: (usize, usize, T)| e.2),
            ri@.len() == vs@.len(),
            ci@.len() == vs@.len(),
            zip3(ri@, ci@, vs@) == s1 + shifted(s2, 0, c1).take(k as int),
        decreases n2 - k,
    {
        let ghost before = zip3(ri@, ci@, vs@);
        proof {
            assert(s2[k as int].1 < m2@.ncols);
        }
        ri.push(i2[k]);
        ci.push(j2[k] + c1);
        vs.push(v2[k]);
        proof {
            let sh = shifted(s2, 0, c1);
            assert(zip3(ri@, ci@, vs@) =~= before.push(sh[k as int]));
            assert(sh.take(k + 1) =~= sh.take(k as int).push(sh[k as int]));
            assert(s1 + sh.take(k + 1) =~= (s1 + sh.take(k as int)).push(sh[k as int]));
        }
        k += 1;
    }
    proof {
        assert(shifted(s2, 0, c1).take(n2 as int) =~= shifted(s2, 0, c1));
        assert(zip3(ri@, ci@, vs@) == target);
        assert forall|q: int| 0 <= q < target.len() implies #[trigger] target[q].0 < nrows && target[q].1 < ncols by {
            if q < n1 {
                assert(target[q] == s1[q]);
            } else {
                assert(target[q] == shifted(s2, 0, c1)[q - n1]);
                assert(s2[q - n1].1 < m2@.ncols);
            }
        }
    }
    proof {
        lemma_hcat_unique(s1, s2, nrows, c1, m2@.ncols);
    }
    let coo = CooMatrix::from_parts(nrows, ncols, ri, ci, vs);
    Ok(CsrMatrix::from_coo(&coo))
}

/// Finds a (row, column) position that is stored more than once, if any.
pub(crate) fn find_repeat<T>(
    nrows: usize,
    ncols: usize,
    off: &[usize],
    cols: &[usize],
    vals: &[T],
    rows: Ghost<Seq<usize>>,
) -> (found: Option<(usize, usize)>)
    requires
        csr_layout(off@, rows@, cols@, vals@.len(), nrows, ncols),
    ensures
        found.is_none() <==> unique_positions(zip3(rows@, cols@, vals@)),
        found matches Some(p) ==> p.0 < nrows,
{
    let ghost z = zip3(rows@, cols@, vals@);
    let mut r: usize = 0;
    while r < nrows
        invariant
            csr_layout(off@, rows@, cols@, vals@.len(), nrows, ncols),
            z == zip3(rows@, cols@, vals@),
            r <= nrows,
            forall|q: int| 0 <= q < r ==> cols_distinct(#[trigger] segment(off@, cols@, vals@, q)),
        decreases nrows - r,
    {
        let ghost seg = segment(off@, cols@, vals@, r as int);
        let start = off[r];
        let end = off[r + 1];
        proof {
            assert(off@[r as int] <= off@[r + 1] <= off@[nrows as int]);
            lemma_segment(off@, rows@, cols@, vals@, nrows, ncols, r);
        }
        let mut a: usize = start;
        while a < end
            invariant
                csr_layout(off@, rows@, cols@, vals@.len(), nrows, ncols),
                    z == zip3(rows@, cols@, vals@),
                r < nrows,
                start == off@[r as int],
                end == off@[r + 1],
                end <= cols@.len(),
                seg == segment(off@, cols@, vals@, r as int),
                seg == row_entries(z, r),
                start <= a <= end,
                forall|i: int, j: int| 0 <= i < a - start && i < j < seg.len() ==> #[trigger] seg[i].0 != #[trigger] seg[j].0,
            decreases end - a,
        {
            let mut b: usize = a + 1;
            while b < end
                invariant
                    csr_layout(off@, rows@, cols@, vals@.len(), nrows, ncols),
                            z == zip3(rows@, cols@, vals@),
                    r < nrows,
                    end <= cols@.len(),
                    start == off@[r as int],
                    end == off@[r + 1],
                    seg == segment(off@, cols@, vals@, r as int),
                    seg == row_entries(z, r),
                    start <= a < end,
                    a < b <= end,
                    forall|i: int, j: int| 0 <= i < a - start && i < j < seg.len() ==> #[trigger] seg[i].0 != #[trigger] seg[j].0,
                    forall|j: int| a - start < j < b - start ==> seg[a - start].0 != #[trigger] seg[j].0,
                decreases end - b,
            {
                if cols[a] == cols[b] {
                    proof {
                        let i = a - start;
                        let j = b - start;
                        assert(seg.len() == end - start);
                        assert(seg[i].0 == cols@[a as int]);
                        assert(seg[j].0 == cols@[b as int]);
                        assert(row_entries(z, r)[i].0 == row_entries(z, r)[j].0);
                        assert(!cols_distinct(row_entries(z, r)));
                        assert(!unique_positions(z));
                    }
                    let c = cols[a];
                    return Some((r, c));
                }
                b += 1;
            }
            a += 1;
        }
        proof {
            assert(cols_distinct(seg));
        }
        r += 1;
    }
    proof {
        assert forall|q: usize| cols_distinct(#[trigger] row_entries(z, q)) by {
            if q < nrows {
                lemma_segment(off@, rows@, cols@, vals@, nrows, ncols, q);
                assert(cols_distinct(segment(off@, cols@, vals@, q as int)));
            } else {
                lemma_csr_in_shape(off@, rows@, cols@, vals@, nrows, ncols);
                lemma_row_entries_outside(z, q, nrows, ncols);
            }
        }
    }
    None
}

/// Groups triplets by row with a counting sort: the offsets, the column
/// indices and values in row order, and the row of each stored entry. Each
/// row keeps its entries in their original order.
pub(crate) fn group_by_row<T: Copy>(nrows: usize, ncols: usize, ri: &[usize], ci: &[usize], vs: &[T]) -> (res: (
    Vec<usize>,
    Vec<usize>,
    Vec<T>,
    Ghost<Seq<usize>>,
))
    requires
        ri@.len() == vs@.len(),
        ci@.len() == vs@.len(),
        in_shape(zip3(ri@, ci@, vs@), nrows, ncols),
    ensures
        csr_layout(res.0@, res.3@, res.1@, res.2@.len(), nrows, ncols),
        res.2@.len() == vs@.len(),
        forall|r: usize| #[trigger] row_entries(zip3(res.3@, res.1@, res.2@), r) == row_entries(zip3(ri@, ci@, vs@), r),
{
    let ghost s = zip3(ri@, ci@, vs@);
    let n = vs.len();
    proof {
        assert(ri@ =~= s.map_values(|e: (usize, usize, T)| e.0));
        assert(ci@ =~= s.map_values(|e: (usize, usize, T)| e.1));
        assert(vs@ =~= s.map_values(|e: (usize, usize, T)| e.2));
    }
    // Number of entries in each row.
    let mut counts: Vec<usize> = Vec::new();
    let mut r: usize = 0;
    while r < nrows
        invariant
            r <= nrows,
            counts@.len() == r,
            forall|q: int| 0 <= q < r ==> counts@[q] == 0,
        decreases nrows - r,
    {
        counts.push(0);
        r += 1;
    }
    let mut k: usize = 0;
    while k < n
        invariant
            k <= n,
            n == s.len(),
            ri@ == s.map_values(|e: (usize, usize, T)| e.0),
            in_shape(s, nrows, ncols),
            counts@.len() == nrows,
            forall|q: int| 0 <= q < nrows ==> #[trigger] counts@[q] == row_entries(s.take(k as int), q as usize).len(),
        decreases n - k,
    {
        let rk = ri[k];
        proof {
            assert(s.take(k + 1).drop_last() =~= s.take(k as int));
            assert(s[k as int].0 < nrows);
            lemma_row_entries_len(s.take(k as int), rk);
            assert forall|q: int| 0 <= q < nrows implies #[trigger] counts@[q] == row_entries(s.take(k as int), q as usize).len() by {}
        }
        let c = counts[rk];
        counts.set(rk, c + 1);
        k += 1;
    }
    proof {
        assert(s.take(n as int) =~= s);
    }
    proof {
        lemma_count_below_zero(s);
    }
    // Offsets: the running total of the counts.
    let mut off: Vec<usize> = Vec::new();
    off.push(0);
    let mut r: usize = 0;
    while r < nrows
        invariant
            r <= nrows,
            n == s.len(),
            off@.len() == r + 1,
            counts@.len() == nrows,
            forall|q: int| 0 <= q < nrows ==> #[trigger] counts@[q] == row_entries(s, q as usize).len(),
            forall|q: int| 0 <= q <= r ==> #[trigger] off@[q] == count_below(s, q as usize),
            forall|i: int, j: int| 0 <= i <= j <= r ==> #[trigger] off@[i] <= #[trigger] off@[j],
        decreases nrows - r,
    {
        proof {
            lemma_count_below_step(s, r);
            lemma_count_below_bounds(s, (r + 1) as usize, nrows, ncols);
            assert(off@[r as int] == count_below(s, r));
        }
        let o = off[r] + counts[r];
        off.push(o);
        r += 1;
    }
    proof {
        lemma_count_below_bounds(s, nrows, nrows, ncols);
        assert(count_below(s, 0) == 0) by {
            lemma_count_below_zero(s);
        }
        assert forall|q: int| 0 <= q < nrows implies off@[q + 1] - off@[q] == #[trigger] row_entries(s, q as usize).len() by {
            lemma_count_below_step(s, q as usize);
        }
    }
    // Place each entry at the next free slot of its row.
    let mut next: Vec<usize> = Vec::new();
    let mut r: usize = 0;
    while r < nrows
        invariant
            r <= nrows,
            off@.len() == nrows + 1,
            next@.len() == r,
            forall|q: int| 0 <= q < r ==> next@[q] == off@[q],
        decreases nrows - r,
    {
        next.push(off[r]);
        r += 1;
    }
    let mut out_cols: Vec<usize> = Vec::new();
    let mut out_vals: Vec<T> = Vec::new();
    let mut k: usize = 0;
    while k < n
        invariant
            k <= n,
            n == vs@.len(),
            out_cols@.len() == k,
            out_vals@.len() == k,
            forall|q: int| 0 <= q < k ==> out_cols@[q] == 0,
        decreases n - k,
    {
        out_cols.push(0);
        out_vals.push(vs[k]);
        k += 1;
    }
    let ghost mut out_rows: Seq<usize> = Seq::new(n as nat, |q: int| 0usize);
    let mut k: usize = 0;
    while k < n
        invariant
            k <= n,
            n == s.len(),
            ri@ == s.map_values(|e: (usize, usize, T)| e.0),
            ci@ == s.map_values(|e: (usize, usize, T)| e.1),
            vs@ == s.map_values(|e: (usize, usize, T)| e.2),
            in_shape(s, nrows, ncols),
            off@.len() == nrows + 1,
            off@[0] == 0,
            off@[nrows as int] == n,
            forall|i: int, j: int| 0 <= i <= j <= nrows ==> #[trigger] off@[i] <= #[trigger] off@[j],
            forall|q: int| 0 <= q < nrows ==> off@[q + 1] - off@[q] == #[trigger] row_entries(s, q as usize).len(),
            next@.len() == nrows,
            forall|q: int| 0 <= q < nrows ==> #[trigger] next@[q] == off@[q] + row_entries(s.take(k as int), q as usize).len(),
            out_cols@.len() == n,
            out_vals@.len() == n,
            out_rows.len() == n,
            n > 0 ==> ncols > 0,
            forall|q: int| 0 <= q < n ==> #[trigger] out_cols@[q] < ncols,
            forall|q: int, j: int|
                0 <= q < nrows && 0 <= j < row_entries(s.take(k as int), q as usize).len() ==> {
                    &&& #[trigger] row_entries(s.take(k as int), q as usize)[j] == (out_cols@[off@[q] + j], out_vals@[off@[q] + j])
                    &&& out_rows[off@[q] + j] == q
                },
        decreases n - k,
    {
        let rk = ri[k];
        let ghost before = s.take(k as int);
        let ghost after = s.take(k + 1);
        proof {
            assert(after.drop_last() =~= before);
            assert(after.last() == s[k as int]);
            assert(s[k as int].0 < nrows && s[k as int].1 < ncols);
            lemma_row_entries_prefix(s, k + 1, rk);
            assert(row_entries(after, rk).len() == row_entries(before, rk).len() + 1);
        }
        let pos = next[rk];
        proof {
            assert(off@[rk as int] <= off@[rk + 1]);
        }
        let ghost old_cols = out_cols@;
        let ghost old_vals = out_vals@;
        let ghost old_rows = out_rows;
        out_cols.set(pos, ci[k]);
        out_vals.set(pos, vs[k]);
        proof {
            out_rows = out_rows.update(pos as int, rk);
        }
        next.set(rk, pos + 1);
        proof {
            assert forall|q: int| 0 <= q < nrows implies #[trigger] next@[q] == off@[q] + row_entries(after, q as usize).len() by {}
            assert forall|q: int, j: int|
                0 <= q < nrows && 0 <= j < row_entries(after, q as usize).len() implies {
                    &&& #[trigger] row_entries(after, q as usize)[j] == (out_cols@[off@[q] + j], out_vals@[off@[q] + j])
                    &&& out_rows[off@[q] + j] == q
                } by {
                if q != rk {
                    lemma_row_entries_prefix(s, k as int, q as usize);
                    assert(row_entries(after, q as usize) == row_entries(before, q as usize));
                    assert(off@[q + 1] - off@[q] == row_entries(s, q as usize).len());
                    if q < rk {
                        assert(off@[q + 1] <= off@[rk as int]);
                    } else {
                        assert(off@[rk + 1] <= off@[q]);
                    }
                    assert(off@[q] + j != pos);
                    assert(row_entries(before, q as usize)[j] == (old_cols[off@[q] + j], old_vals[off@[q] + j]));
                } else if j < row_entries(before, q as usize).len() {
                    assert(row_entries(after, q as usize)[j] == row_entries(before, q as usize)[j]);
                    assert(row_entries(before, q as usize)[j] == (old_cols[off@[q] + j], old_vals[off@[q] + j]));
                    assert(off@[q] + j != pos);
                } else {
                    assert(j == row_entries(before, q as usize).len());
                    assert(off@[q] + j == pos);
                    assert(row_entries(after, q as usize)[j] == (s[k as int].1, s[k as int].2));
                    assert(ci@[k as int] == s[k as int].1);
                }
            }
        }
        k += 1;
    }
    proof {
        assert(s.take(n as int) =~= s);
        assert forall|q: int| 0 <= q < n implies {
            &&& #[trigger] out_rows[q] < nrows
            &&& off@[out_rows[q] as int] <= q < off@[out_rows[q] + 1]
            &&& out_cols@[q] < ncols
        } by {
            let r = lemma_find_row(off@, nrows as int, q);
            assert(off@[r + 1] - off@[r] == row_entries(s, r as usize).len());
            assert(s.take(n as int) == s);
            let e = row_entries(s.take(n as int), r as usize)[q - off@[r]];
            assert(out_rows[off@[r] + (q - off@[r])] == r);
        }
        assert(csr_layout(off@, out_rows, out_cols@, out_vals@.len(), nrows, ncols));
    }
    proof {
        assert forall|r: usize| #[trigger] row_entries(zip3(out_rows, out_cols@, out_vals@), r) == row_entries(s, r) by {
            if r < nrows {
                lemma_segment(off@, out_rows, out_cols@, out_vals@, nrows, ncols, r);
                assert(segment(off@, out_cols@, out_vals@, r as int) =~= row_entries(s, r));
            } else {
                lemma_csr_in_shape(off@, out_rows, out_cols@, out_vals@, nrows, ncols);
                lemma_row_entries_outside(zip3(out_rows, out_cols@, out_vals@), r, nrows, ncols);
                lemma_row_entries_outside(s, r, nrows, ncols);
            }
        }
    }
    (off, out_cols, out_vals, Ghost(out_rows))
}

proof fn lemma_csr_in_shape<T>(off: Seq<usize>, rows: Seq<usize>, cols: Seq<usize>, vals: Seq<T>, nrows: usize, ncols: usize)
    requires
        csr_layout(off, rows, cols, vals.len(), nrows, ncols),
    ensures
        in_shape(zip3(rows, cols, vals), nrows, ncols),
{
    let z = zip3(rows, cols, vals);
    assert forall|k: int| 0 <= k < z.len() implies #[trigger] z[k].0 < nrows && z[k].1 < ncols by {
        assert(rows[k] < nrows);
    }
}

proof fn lemma_csr_sorted<T>(off: Seq<usize>, rows: Seq<usize>, cols: Seq<usize>, vals: Seq<T>, nrows: usize, ncols: usize)
    requires
        csr_layout(off, rows, cols, vals.len(), nrows, ncols),
    ensures
        row_sorted(zip3(rows, cols, vals)),
{
    let z = zip3(rows, cols, vals);
    assert forall|i: int, j: int| 0 <= i < j < z.len() implies #[trigger] z[i].0 <= #[trigger] z[j].0 by {
        assert(rows[i] < nrows && rows[j] < nrows);
        assert(off[rows[i] as int] <= i < off[rows[i] + 1]);
        assert(off[rows[j] as int] <= j < off[rows[j] + 1]);
        if rows[i] > rows[j] {
            assert(off[rows[j] + 1] <= off[rows[i] as int]);
        }
    }
}

} // verus!
