use vstd::prelude::*;
use crate::error::SparseError;
use crate::laws::law_select_full;
use crate::csr::{find_repeat, group_by_row};
use crate::spec::{
    column_value, cols_distinct, in_shape, lemma_col_selected_distinct, lemma_row_entries_selected, row_entries, selected,
    unique_positions, zip3, MatrixView, lemma_unique_positions_by_index,
};

verus! {

/// A sparse matrix in coordinate form: parallel row-index, column-index and
/// value sequences in arbitrary order. A matrix built from triplets never
/// stores a (row, column) position twice: repeated positions are refused.
pub struct CooMatrix<T> {
    nrows: usize,
    ncols: usize,
    row_indices: Vec<usize>,
    col_indices: Vec<usize>,
    values: Vec<T>,
}

impl<T> View for CooMatrix<T> {
    type V = MatrixView<T>;

    closed spec fn view(&self) -> MatrixView<T> {
        MatrixView {
            nrows: self.nrows,
            ncols: self.ncols,
            entries: zip3(self.row_indices@, self.col_indices@, self.values@),
        }
    }
}

impl<T> CooMatrix<T> {
    #[verifier::type_invariant]
    pub(crate) closed spec fn well_formed(self) -> bool {
        &&& self.row_indices@.len() == self.values@.len()
        &&& self.col_indices@.len() == self.values@.len()
        &&& in_shape(zip3(self.row_indices@, self.col_indices@, self.values@), self.nrows, self.ncols)
        &&& unique_positions(zip3(self.row_indices@, self.col_indices@, self.values@))
    }
}

impl<T: Copy> CooMatrix<T> {
    /// Assembles a matrix from parts already known to be consistent.
    pub(crate) fn from_parts(
        nrows: usize,
        ncols: usize,
        row_indices: Vec<usize>,
        col_indices: Vec<usize>,
        values: Vec<T>,
    ) -> (m: Self)
        requires
            row_indices@.len() == values@.len(),
            col_indices@.len() == values@.len(),
            in_shape(zip3(row_indices@, col_indices@, values@), nrows, ncols),
            unique_positions(zip3(row_indices@, col_indices@, values@)),
        ensures
            m@ == (MatrixView { nrows, ncols, entries: zip3(row_indices@, col_indices@, values@) }),
    {
        CooMatrix { nrows, ncols, row_indices, col_indices, values }
    }

    /// Builds a matrix from parallel triplet sequences.
    pub fn try_from_triplets(
        nrows: usize,
        ncols: usize,
        row_indices: Vec<usize>,
        col_indices: Vec<usize>,
        values: Vec<T>,
    ) -> (r: Result<Self, SparseError>)
        ensures
            (row_indices@.len() != values@.len() || col_indices@.len() != values@.len()) ==> r
                == Err::<Self, SparseError>(
                SparseError::Construction {
                    rows: row_indices@.len() as usize,
                    cols: col_indices@.len() as usize,
                    values: values@.len() as usize,
                },
            ),
            (row_indices@.len() == values@.len() && col_indices@.len() == values@.len()) ==> (r.is_ok() <==> (in_shape(
                zip3(row_indices@, col_indices@, values@),
                nrows,
                ncols,
            ) && unique_positions(zip3(row_indices@, col_indices@, values@)))),
            (row_indices@.len() == values@.len() && col_indices@.len() == values@.len() && !in_shape(
                zip3(row_indices@, col_indices@, values@),
                nrows,
                ncols,
            )) ==> (r matches Err(SparseError::IndexOutOfBounds { .. })),
            (row_indices@.len() == values@.len() && col_indices@.len() == values@.len() && in_shape(
                zip3(row_indices@, col_indices@, values@),
                nrows,
                ncols,
            ) && !unique_positions(zip3(row_indices@, col_indices@, values@))) ==> (r matches Err(
                SparseError::DuplicateEntry { .. },
            )),
            r matches Ok(m) ==> m@ == (MatrixView {
                nrows,
                ncols,
                entries: zip3(row_indices@, col_indices@, values@),
            }),
    {
        if row_indices.len() != values.len() || col_indices.len() != values.len() {
            return Err(
                SparseError::Construction {
                    rows: row_indices.len(),
                    cols: col_indices.len(),
                    values: values.len(),
                },
            );
        }
        let n = values.len();
        let mut k: usize = 0;
        while k < n
            invariant
                k <= n,
                n == values@.len(),
                row_indices@.len() == n,
                col_indices@.len() == n,
                forall|q: int| 0 <= q < k ==> row_indices@[q] < nrows && col_indices@[q] < ncols,
            decreases n - k,
        {
            if row_indices[k] >= nrows || col_indices[k] >= ncols {
                proof {
                    let z = zip3(row_indices@, col_indices@, values@);
                    assert(z[k as int].0 >= nrows || z[k as int].1 >= ncols);
                    assert(!in_shape(z, nrows, ncols));
                }
                return Err(SparseError::IndexOutOfBounds { row: row_indices[k], col: col_indices[k] });
            }
            k += 1;
        }
        let (off, cols, vals, rows) = group_by_row(
            nrows,
            ncols,
            row_indices.as_slice(),
            col_indices.as_slice(),
            values.as_slice(),
        );
        let ghost s = zip3(row_indices@, col_indices@, values@);
        let ghost g = zip3(rows@, cols@, vals@);
        proof {
            assert(in_shape(s, nrows, ncols));
        }
        match find_repeat(nrows, ncols, off.as_slice(), cols.as_slice(), vals.as_slice(), rows) {
            Some((row, col)) => {
                proof {
                    if unique_positions(s) {
                        assert forall|q: usize| cols_distinct(#[trigger] row_entries(g, q)) by {
                            assert(row_entries(g, q) == row_entries(s, q));
                        }
                    }
                }
                Err(SparseError::DuplicateEntry { row, col })
            },
            None => {
                proof {
                    assert forall|q: usize| cols_distinct(#[trigger] row_entries(s, q)) by {
                        assert(row_entries(g, q) == row_entries(s, q));
                    }
                }
                Ok(CooMatrix { nrows, ncols, row_indices, col_indices, values })
            },
        }
    }

    pub fn nrows(&self) -> (r: usize)
        ensures
            r == self@.nrows,
    {
        self.nrows
    }

    pub fn ncols(&self) -> (r: usize)
        ensures
            r == self@.ncols,
    {
        self.ncols
    }

    /// The number of stored entries, every one of which lies inside the
    /// declared shape at a position stored only once.
    pub fn nnz(&self) -> (r: usize)
        ensures
            r == self@.entries.len(),
            in_shape(self@.entries, self@.nrows, self@.ncols),
            unique_positions(self@.entries),
    {
        proof {
            use_type_invariant(self);
        }
        self.values.len()
    }

    pub fn row_indices(&self) -> (r: &[usize])
        ensures
            r@ == self@.entries.map_values(|e: (usize, usize, T)| e.0),
    {
        proof {
            use_type_invariant(self);
        }
        assert(self.row_indices@ =~= self@.entries.map_values(|e: (usize, usize, T)| e.0));
        self.row_indices.as_slice()
    }

    pub fn col_indices(&self) -> (r: &[usize])
        ensures
            r@ == self@.entries.map_values(|e: (usize, usize, T)| e.1),
    {
        proof {
            use_type_invariant(self);
        }
        assert(self.col_indices@ =~= self@.entries.map_values(|e: (usize, usize, T)| e.1));
        self.col_indices.as_slice()
    }

    pub fn values(&self) -> (r: &[T])
        ensures
            r@ == self@.entries.map_values(|e: (usize, usize, T)| e.2),
    {
        assert(self.values@ =~= self@.entries.map_values(|e: (usize, usize, T)| e.2));
        self.values.as_slice()
    }

    /// The transposed matrix: each entry's row and column swapped, in the
    /// same storage order.
    pub fn transpose(&self) -> (t: CooMatrix<T>)
        ensures
            t@.nrows == self@.ncols,
            t@.ncols == self@.nrows,
            t@.entries == self@.entries.map_values(|e: (usize, usize, T)| (e.1, e.0, e.2)),
    {
        proof {
            use_type_invariant(self);
        }
        let ghost s = self@.entries;
        let ghost swapped = s.map_values(|e: (usize, usize, T)| (e.1, e.0, e.2));
        let n = self.values.len();
        let mut ri: Vec<usize> = Vec::new();
        let mut ci: Vec<usize> = Vec::new();
        let mut vs: Vec<T> = Vec::new();
        let mut k: usize = 0;
        while k < n
            invariant
                k <= n,
                n == s.len(),
                s == self@.entries,
                swapped == s.map_values(|e: (usize, usize, T)| (e.1, e.0, e.2)),
                self.row_indices@.len() == n,
                self.col_indices@.len() == n,
                self.values@.len() == n,
                ri@.len() == vs@.len(),
                ci@.len() == vs@.len(),
                zip3(ri@, ci@, vs@) == swapped.take(k as int),
            decreases n - k,
        {
            let ghost before = zip3(ri@, ci@, vs@);
            ri.push(self.col_indices[k]);
            ci.push(self.row_indices[k]);
            vs.push(self.values[k]);
            proof {
                assert(zip3(ri@, ci@, vs@) =~= before.push(swapped[k as int]));
                assert(swapped.take(k + 1) =~= swapped.take(k as int).push(swapped[k as int]));
            }
            k += 1;
        }
        proof {
            assert(swapped.take(n as int) =~= swapped);
            assert forall|q: int| #![trigger swapped[q]] 0 <= q < swapped.len() implies swapped[q].0 < self.ncols
                && swapped[q].1 < self.nrows by {
                assert(s[q].0 < self.nrows && s[q].1 < self.ncols);
            }
            lemma_unique_positions_by_index(s);
            lemma_unique_positions_by_index(swapped);
            assert forall|i: int, j: int| 0 <= i < j < swapped.len() implies (#[trigger] swapped[i].0
                != #[trigger] swapped[j].0 || swapped[i].1 != swapped[j].1) by {
                assert(s[i].0 != s[j].0 || s[i].1 != s[j].1);
            }
        }
        CooMatrix { nrows: self.ncols, ncols: self.nrows, row_indices: ri, col_indices: ci, values: vs }
    }

    /// Reads column `col` out as a dense vector with one element per row:
    /// the value stored at (row, `col`), or `zero` where nothing is stored.
    /// A column past the matrix is refused.
    pub fn column_to_dense(&self, col: usize, zero: T) -> (r: Result<Vec<T>, SparseError>)
        ensures
            (col < self@.ncols) <==> r.is_ok(),
            r.is_err() ==> r == Err::<Vec<T>, SparseError>(SparseError::RangeOutOfBounds),
            r matches Ok(v) ==> {
                &&& v@.len() == self@.nrows
                &&& forall|i: int| 0 <= i < self@.nrows ==> #[trigger] v@[i] == column_value(
                    row_entries(self@.entries, i as usize),
                    col,
                    zero,
                )
            },
    {
        proof {
            use_type_invariant(self);
        }
        if col >= self.ncols {
            return Err(SparseError::RangeOutOfBounds);
        }
        let ghost s = self@.entries;
        let mut out: Vec<T> = Vec::new();
        let mut i: usize = 0;
        while i < self.nrows
            invariant
                i <= self.nrows,
                out@.len() == i,
                forall|q: int| 0 <= q < i ==> #[trigger] out@[q] == zero,
            decreases self.nrows - i,
        {
            out.push(zero);
            i += 1;
        }
        let n = self.values.len();
        let mut k: usize = 0;
        while k < n
            invariant
                k <= n,
                n == s.len(),
                s == self@.entries,
                self.row_indices@.len() == n,
                self.col_indices@.len() == n,
                self.values@.len() == n,
                in_shape(s, self.nrows, self.ncols),
                out@.len() == self.nrows,
                forall|q: int| 0 <= q < self.nrows ==> #[trigger] out@[q] == column_value(
                    row_entries(s.take(k as int), q as usize),
                    col,
                    zero,
                ),
            decreases n - k,
        {
            proof {
                assert(s.take(k + 1).drop_last() =~= s.take(k as int));
                assert(s[k as int].0 < self.nrows);
            }
            if self.col_indices[k] == col {
                let row = self.row_indices[k];
                out.set(row, self.values[k]);
            }
            proof {
                assert forall|q: int| 0 <= q < self.nrows implies #[trigger] out@[q] == column_value(
                    row_entries(s.take(k + 1), q as usize),
                    col,
                    zero,
                ) by {
                    let p = row_entries(s.take(k as int), q as usize);
                    if s[k as int].0 == q {
                        assert(row_entries(s.take(k + 1), q as usize) == p.push((s[k as int].1, s[k as int].2)));
                        assert(p.push((s[k as int].1, s[k as int].2)).drop_last() =~= p);
                    }
                }
            }
            k += 1;
        }
        proof {
            assert(s.take(n as int) =~= s);
        }
        Ok(out)
    }

    /// Extracts the block of rows `row` and columns `col` (both half-open)
    /// as a new matrix whose indices start at zero. Entries outside the
    /// block are dropped; a reversed range, or one reaching past the
    /// matrix, is refused.
    pub fn select(&self, row: std::ops::Range<usize>, col: std::ops::Range<usize>) -> (r: Result<
        CooMatrix<T>,
        SparseError,
    >)
        ensures
            (row.start <= row.end <= self@.nrows && col.start <= col.end <= self@.ncols) <==> r.is_ok(),
            r.is_err() ==> r == Err::<CooMatrix<T>, SparseError>(SparseError::RangeOutOfBounds),
            r matches Ok(m) ==> m@ == (MatrixView {
                nrows: (row.end - row.start) as usize,
                ncols: (col.end - col.start) as usize,
                entries: selected(self@.entries, row.start, row.end, col.start, col.end),
            }),
            (row.start == 0 && row.end == self@.nrows && col.start == 0 && col.end == self@.ncols) ==> (r matches Ok(
                m,
            ) ==> m@ == self@),
            r matches Ok(m) ==> unique_positions(m@.entries),
    {
        proof {
            use_type_invariant(self);
            law_select_full(self@.entries, self.nrows, self.ncols);
            if row.start <= row.end && col.start <= col.end {
                let t = selected(self@.entries, row.start, row.end, col.start, col.end);
                assert forall|q: usize| cols_distinct(#[trigger] row_entries(t, q)) by {
                    lemma_row_entries_selected(self@.entries, row.start, row.end, col.start, col.end, q);
                    if q < row.end - row.start {
                        let src = row_entries(self@.entries, (q + row.start) as usize);
                        assert(cols_distinct(src));
                        lemma_col_selected_distinct(src, col.start, col.end);
                    }
                }
            }
        }
        if row.start > row.end || row.end > self.nrows || col.start > col.end || col.end > self.ncols {
            return Err(SparseError::RangeOutOfBounds);
        }
        let ghost s = self@.entries;
        let n = self.values.len();
        let mut ri: Vec<usize> = Vec::new();
        let mut ci: Vec<usize> = Vec::new();
        let mut vs: Vec<T> = Vec::new();
        let mut k: usize = 0;
        while k < n
            invariant
                k <= n,
                n == s.len(),
                s == self@.entries,
                self.row_indices@.len() == n,
                self.col_indices@.len() == n,
                self.values@.len() == n,
                ri@.len() == vs@.len(),
                ci@.len() == vs@.len(),
                zip3(ri@, ci@, vs@) == selected(s.take(k as int), row.start, row.end, col.start, col.end),
                in_shape(zip3(ri@, ci@, vs@), (row.end - row.start) as usize, (col.end - col.start) as usize),
            decreases n - k,
        {
            let i = self.row_indices[k];
            let j = self.col_indices[k];
            proof {
                assert(s.take(k + 1).drop_last() =~= s.take(k as int));
                assert(s.take(k + 1).last() == s[k as int]);
            }
            if row.start <= i && i < row.end && col.start <= j && j < col.end {
                let ghost before = zip3(ri@, ci@, vs@);
                ri.push(i - row.start);
                ci.push(j - col.start);
                vs.push(self.values[k]);
                proof {
                    assert(zip3(ri@, ci@, vs@) =~= before.push(((i - row.start) as usize, (j - col.start) as usize, s[k as int].2)));
                    assert(in_shape(zip3(ri@, ci@, vs@), (row.end - row.start) as usize, (col.end - col.start) as usize)) by {
                        assert forall|q: int| 0 <= q < zip3(ri@, ci@, vs@).len() implies #[trigger] zip3(ri@, ci@, vs@)[q].0 < (row.end - row.start) as usize && zip3(ri@, ci@, vs@)[q].1 < (col.end - col.start) as usize by {
                            if q < before.len() {
                                assert(zip3(ri@, ci@, vs@)[q] == before[q]);
                            }
                        }
                    }
                }
            }
            k += 1;
        }
        proof {
            assert(s.take(n as int) =~= s);
        }
        Ok(CooMatrix {
            nrows: row.end - row.start,
            ncols: col.end - col.start,
            row_indices: ri,
            col_indices: ci,
            values: vs,
        })
    }
}

} // verus!
