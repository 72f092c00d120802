use vstd::prelude::*;

verus! {

/// The stored entries of row `r`, as (column, value) pairs, in storage order.
pub open spec fn row_entries<T>(s: Seq<(usize, usize, T)>, r: usize) -> Seq<(usize, T)>
    decreases s.len(),
{
    if s.len() == 0 {
        Seq::empty()
    } else {
        let e = s.last();
        let p = row_entries(s.drop_last(), r);
        if e.0 == r {
            p.push((e.1, e.2))
        } else {
            p
        }
    }
}

/// The entries of `s` that fall in rows `r0..r1` and columns `c0..c1`, with
/// their indices re-based to start at zero, in storage order.
pub open spec fn selected<T>(
    s: Seq<(usize, usize, T)>,
    r0: usize,
    r1: usize,
    c0: usize,
    c1: usize,
) -> Seq<(usize, usize, T)>
    decreases s.len(),
{
    if s.len() == 0 {
        Seq::empty()
    } else {
        let e = s.last();
        let p = selected(s.drop_last(), r0, r1, c0, c1);
        if r0 <= e.0 < r1 && c0 <= e.1 < c1 {
            p.push(((e.0 - r0) as usize, (e.1 - c0) as usize, e.2))
        } else {
            p
        }
    }
}

/// Every entry lies inside an `nrows` x `ncols` shape.
pub open spec fn in_shape<T>(s: Seq<(usize, usize, T)>, nrows: usize, ncols: usize) -> bool {
    forall|k: int| #![trigger s[k]] 0 <= k < s.len() ==> s[k].0 < nrows && s[k].1 < ncols
}

/// The triplet listing of three parallel sequences.
pub open spec fn zip3<T>(i: Seq<usize>, j: Seq<usize>, v: Seq<T>) -> Seq<(usize, usize, T)> {
    Seq::new(v.len(), |k: int| (i[k], j[k], v[k]))
}

} // verus!

verus! {

/// The mathematical content of a sparse matrix: its declared shape and its
/// stored entries as (row, column, value) triplets in storage order.
pub struct MatrixView<T> {
    pub nrows: usize,
    pub ncols: usize,
    pub entries: Seq<(usize, usize, T)>,
}

} // verus!

verus! {

/// Rows never decrease along the storage order.
pub open spec fn row_sorted<T>(s: Seq<(usize, usize, T)>) -> bool {
    forall|i: int, j: int| 0 <= i < j < s.len() ==> #[trigger] s[i].0 <= #[trigger] s[j].0
}

/// The number of entries whose row lies below `r`.
pub open spec fn count_below<T>(s: Seq<(usize, usize, T)>, r: usize) -> nat
    decreases s.len(),
{
    if s.len() == 0 {
        0
    } else {
        count_below(s.drop_last(), r) + if s.last().0 < r {
            1nat
        } else {
            0nat
        }
    }
}

pub proof fn lemma_count_below_step<T>(s: Seq<(usize, usize, T)>, r: usize)
    requires
        r < usize::MAX,
    ensures
        count_below(s, (r + 1) as usize) == count_below(s, r) + row_entries(s, r).len(),
    decreases s.len(),
{
    if s.len() > 0 {
        lemma_count_below_step(s.drop_last(), r);
    }
}

pub proof fn lemma_count_below_bounds<T>(s: Seq<(usize, usize, T)>, r: usize, nrows: usize, ncols: usize)
    ensures
        count_below(s, r) <= s.len(),
        in_shape(s, nrows, ncols) ==> count_below(s, nrows) == s.len(),
    decreases s.len(),
{
    if s.len() > 0 {
        lemma_count_below_bounds(s.drop_last(), r, nrows, ncols);
        if in_shape(s, nrows, ncols) {
            assert(in_shape(s.drop_last(), nrows, ncols)) by {
                assert forall|k: int| 0 <= k < s.drop_last().len() implies #[trigger] s.drop_last()[k].0
                    < nrows && s.drop_last()[k].1 < ncols by {
                    assert(s.drop_last()[k] == s[k]);
                }
            }
            assert(s[s.len() - 1].0 < nrows);
        }
    }
}

pub proof fn lemma_row_entries_len<T>(s: Seq<(usize, usize, T)>, r: usize)
    ensures
        row_entries(s, r).len() <= s.len(),
    decreases s.len(),
{
    if s.len() > 0 {
        lemma_row_entries_len(s.drop_last(), r);
    }
}

/// The entries of a row among a prefix are a prefix of the row's entries.
pub proof fn lemma_row_entries_prefix<T>(s: Seq<(usize, usize, T)>, k: int, r: usize)
    requires
        0 <= k <= s.len(),
    ensures
        row_entries(s.take(k), r).len() <= row_entries(s, r).len(),
        forall|j: int|
            0 <= j < row_entries(s.take(k), r).len() ==> #[trigger] row_entries(s.take(k), r)[j]
                == row_entries(s, r)[j],
    decreases s.len() - k,
{
    if k == s.len() {
        assert(s.take(k) =~= s);
    } else {
        lemma_row_entries_prefix(s, k + 1, r);
        assert(s.take(k + 1).drop_last() =~= s.take(k));
        let a = row_entries(s.take(k), r);
        let b = row_entries(s.take(k + 1), r);
        assert(a.len() <= b.len());
        assert forall|j: int| 0 <= j < a.len() implies #[trigger] a[j] == row_entries(s, r)[j] by {
            assert(a[j] == b[j]);
        }
    }
}

/// Rows at or past the shape's row count hold nothing.
pub proof fn lemma_row_entries_outside<T>(s: Seq<(usize, usize, T)>, r: usize, nrows: usize, ncols: usize)
    requires
        in_shape(s, nrows, ncols),
        r >= nrows,
    ensures
        row_entries(s, r).len() == 0,
    decreases s.len(),
{
    if s.len() > 0 {
        assert(in_shape(s.drop_last(), nrows, ncols)) by {
            assert forall|k: int| 0 <= k < s.drop_last().len() implies #[trigger] s.drop_last()[k].0
                < nrows && s.drop_last()[k].1 < ncols by {
                assert(s.drop_last()[k] == s[k]);
            }
        }
        assert(s[s.len() - 1].0 < nrows);
        lemma_row_entries_outside(s.drop_last(), r, nrows, ncols);
    }
}

/// How often a triplet occurs is how often its (column, value) pair occurs in its row.
pub proof fn lemma_count_by_row<T>(s: Seq<(usize, usize, T)>, x: (usize, usize, T))
    ensures
        s.to_multiset().count(x) == row_entries(s, x.0).to_multiset().count((x.1, x.2)),
    decreases s.len(),
{
    broadcast use vstd::seq_lib::group_to_multiset_ensures;
    if s.len() == 0 {
        assert(!s.contains(x));
        assert(!row_entries(s, x.0).contains((x.1, x.2)));
    } else {
        lemma_count_by_row(s.drop_last(), x);
        assert(s =~= s.drop_last().push(s.last()));
    }
}

/// Two listings with equal rows everywhere hold the same multiset of triplets.
pub proof fn lemma_rows_equal_multiset<T>(s: Seq<(usize, usize, T)>, t: Seq<(usize, usize, T)>)
    requires
        forall|r: usize| row_entries(s, r) == row_entries(t, r),
    ensures
        s.to_multiset() == t.to_multiset(),
{
    assert forall|x: (usize, usize, T)| s.to_multiset().count(x) == t.to_multiset().count(x) by {
        lemma_count_by_row(s, x);
        lemma_count_by_row(t, x);
    }
    assert(s.to_multiset() =~= t.to_multiset());
}

} // verus!

verus! {

pub proof fn lemma_count_below_zero<T>(s: Seq<(usize, usize, T)>)
    ensures
        count_below(s, 0) == 0,
    decreases s.len(),
{
    if s.len() > 0 {
        lemma_count_below_zero(s.drop_last());
    }
}

} // verus!

verus! {

/// `w` records a left fold of `plus` from `init` over `vals`: it starts at
/// `init` and each step is a result of `plus` on the previous one and the
/// next value.
pub open spec fn fold_trace<T, F: Fn(T, T) -> T>(plus: F, init: T, vals: Seq<T>, w: Seq<T>) -> bool {
    &&& w.len() == vals.len() + 1
    &&& w[0] == init
    &&& forall|i: int| 0 <= i < vals.len() ==> call_ensures(plus, (#[trigger] w[i], vals[i]), w[i + 1])
}

/// `out` is what folding `plus` from `init` over `vals`, in order, can produce.
pub open spec fn folds_to<T, F: Fn(T, T) -> T>(plus: F, init: T, vals: Seq<T>, out: T) -> bool {
    exists|w: Seq<T>| #[trigger] fold_trace(plus, init, vals, w) && w.last() == out
}

/// `one` leaves every value unchanged when multiplied on the left.
pub open spec fn left_identity<T, F: Fn(T, T) -> T>(times: F, one: T) -> bool {
    forall|a: T, r: T| call_ensures(times, (one, a), r) ==> r == a
}

} // verus!

verus! {

/// Moves every entry `r0` rows down and `c0` columns to the right.
pub open spec fn shifted<T>(s: Seq<(usize, usize, T)>, r0: usize, c0: usize) -> Seq<(usize, usize, T)> {
    s.map_values(|e: (usize, usize, T)| ((e.0 + r0) as usize, (e.1 + c0) as usize, e.2))
}

/// The entries of `a` beside those of `b`, the latter moved right by `c`.
pub open spec fn hcat_entries<T>(a: Seq<(usize, usize, T)>, b: Seq<(usize, usize, T)>, c: usize) -> Seq<(usize, usize, T)> {
    a + shifted(b, 0, c)
}

} // verus!

verus! {

/// No column occurs twice among `q`'s (column, value) pairs.
pub open spec fn cols_distinct<T>(q: Seq<(usize, T)>) -> bool {
    forall|i: int, j: int| 0 <= i < j < q.len() ==> #[trigger] q[i].0 != #[trigger] q[j].0
}

/// No (row, column) position is stored twice.
pub open spec fn unique_positions<T>(s: Seq<(usize, usize, T)>) -> bool {
    forall|r: usize| cols_distinct(#[trigger] row_entries(s, r))
}

/// The pairs of a row that fall in columns `c0..c1`, re-based to column zero.
pub open spec fn col_selected<T>(q: Seq<(usize, T)>, c0: usize, c1: usize) -> Seq<(usize, T)>
    decreases q.len(),
{
    if q.len() == 0 {
        Seq::empty()
    } else {
        let e = q.last();
        let p = col_selected(q.drop_last(), c0, c1);
        if c0 <= e.0 < c1 {
            p.push(((e.0 - c0) as usize, e.1))
        } else {
            p
        }
    }
}

pub proof fn lemma_row_entries_concat<T>(a: Seq<(usize, usize, T)>, b: Seq<(usize, usize, T)>, r: usize)
    ensures
        row_entries(a + b, r) == row_entries(a, r) + row_entries(b, r),
    decreases b.len(),
{
    if b.len() == 0 {
        assert(a + b =~= a);
        assert(row_entries(a, r) + row_entries(b, r) =~= row_entries(a, r));
    } else {
        lemma_row_entries_concat(a, b.drop_last(), r);
        assert((a + b).drop_last() =~= a + b.drop_last());
        assert((a + b).last() == b.last());
        if b.last().0 == r {
            assert(row_entries(a, r) + row_entries(b, r) =~= (row_entries(a, r) + row_entries(b.drop_last(), r)).push(
                (b.last().1, b.last().2),
            ));
        }
    }
}

pub proof fn lemma_row_entries_shifted<T>(b: Seq<(usize, usize, T)>, c: usize, r: usize)
    ensures
        row_entries(shifted(b, 0, c), r) == row_entries(b, r).map_values(|p: (usize, T)| ((p.0 + c) as usize, p.1)),
    decreases b.len(),
{
    let f = |p: (usize, T)| ((p.0 + c) as usize, p.1);
    if b.len() == 0 {
        assert(row_entries(b, r).map_values(f) =~= Seq::<(usize, T)>::empty());
    } else {
        lemma_row_entries_shifted(b.drop_last(), c, r);
        assert(shifted(b, 0, c).drop_last() =~= shifted(b.drop_last(), 0, c));
        if b.last().0 == r {
            assert(row_entries(b, r).map_values(f) =~= row_entries(b.drop_last(), r).map_values(f).push(
                f((b.last().1, b.last().2)),
            ));
        }
    }
}

pub proof fn lemma_row_entries_cols<T>(s: Seq<(usize, usize, T)>, nrows: usize, ncols: usize, r: usize)
    requires
        in_shape(s, nrows, ncols),
    ensures
        forall|j: int| 0 <= j < row_entries(s, r).len() ==> #[trigger] row_entries(s, r)[j].0 < ncols,
    decreases s.len(),
{
    if s.len() > 0 {
        assert(in_shape(s.drop_last(), nrows, ncols)) by {
            assert forall|k: int| #![trigger s.drop_last()[k]] 0 <= k < s.drop_last().len() implies s.drop_last()[k].0
                < nrows && s.drop_last()[k].1 < ncols by {
                assert(s.drop_last()[k] == s[k]);
            }
        }
        assert(s[s.len() - 1].1 < ncols);
        lemma_row_entries_cols(s.drop_last(), nrows, ncols, r);
        let p = row_entries(s.drop_last(), r);
        assert forall|j: int| 0 <= j < row_entries(s, r).len() implies #[trigger] row_entries(s, r)[j].0 < ncols by {
            if j < p.len() {
                assert(row_entries(s, r)[j] == p[j]);
            }
        }
    }
}

/// A block's row holds the source row's pairs in the block's columns.
pub proof fn lemma_row_entries_selected<T>(s: Seq<(usize, usize, T)>, r0: usize, r1: usize, c0: usize, c1: usize, r: usize)
    requires
        r0 <= r1,
        c0 <= c1,
    ensures
        r < r1 - r0 ==> row_entries(selected(s, r0, r1, c0, c1), r) == col_selected(row_entries(s, (r + r0) as usize), c0, c1),
        r >= r1 - r0 ==> row_entries(selected(s, r0, r1, c0, c1), r).len() == 0,
    decreases s.len(),
{
    if s.len() > 0 {
        let d = s.drop_last();
        lemma_row_entries_selected(d, r0, r1, c0, c1, r);
        let e = s.last();
        let sd = selected(d, r0, r1, c0, c1);
        if r0 <= e.0 < r1 && c0 <= e.1 < c1 {
            let x = ((e.0 - r0) as usize, (e.1 - c0) as usize, e.2);
            assert(selected(s, r0, r1, c0, c1) == sd.push(x));
            assert(sd.push(x).drop_last() =~= sd);
            if r < r1 - r0 && e.0 == r + r0 {
                let q = row_entries(d, (r + r0) as usize);
                assert(row_entries(s, (r + r0) as usize) == q.push((e.1, e.2)));
                assert(q.push((e.1, e.2)).drop_last() =~= q);
            }
        } else {
            if r < r1 - r0 && e.0 == r + r0 {
                let q = row_entries(d, (r + r0) as usize);
                assert(row_entries(s, (r + r0) as usize) == q.push((e.1, e.2)));
                assert(q.push((e.1, e.2)).drop_last() =~= q);
            }
        }
    }
}

/// Each selected pair comes from a pair of the row, re-based.
pub proof fn lemma_col_selected_origin<T>(q: Seq<(usize, T)>, c0: usize, c1: usize)
    ensures
        forall|j: int|
            0 <= j < col_selected(q, c0, c1).len() ==> exists|i: int|
                0 <= i < q.len() && #[trigger] col_selected(q, c0, c1)[j].0 + c0 == q[i].0,
        col_selected(q, c0, c1).len() <= q.len(),
    decreases q.len(),
{
    if q.len() > 0 {
        lemma_col_selected_origin(q.drop_last(), c0, c1);
        let p = col_selected(q.drop_last(), c0, c1);
        let t = col_selected(q, c0, c1);
        assert forall|j: int| 0 <= j < t.len() implies exists|i: int|
            0 <= i < q.len() && #[trigger] t[j].0 + c0 == q[i].0 by {
            if j < p.len() {
                assert(t[j] == p[j]);
                let i = choose|i: int| 0 <= i < q.drop_last().len() && p[j].0 + c0 == q.drop_last()[i].0;
                assert(q.drop_last()[i] == q[i]);
            } else {
                assert(t[j].0 + c0 == q[q.len() - 1].0);
            }
        }
    }
}

pub proof fn lemma_col_selected_distinct<T>(q: Seq<(usize, T)>, c0: usize, c1: usize)
    requires
        cols_distinct(q),
    ensures
        cols_distinct(col_selected(q, c0, c1)),
    decreases q.len(),
{
    if q.len() > 0 {
        let d = q.drop_last();
        assert(cols_distinct(d)) by {
            assert forall|i: int, j: int| 0 <= i < j < d.len() implies #[trigger] d[i].0 != #[trigger] d[j].0 by {
                assert(d[i] == q[i] && d[j] == q[j]);
            }
        }
        lemma_col_selected_distinct(d, c0, c1);
        lemma_col_selected_origin(d, c0, c1);
        let p = col_selected(d, c0, c1);
        let t = col_selected(q, c0, c1);
        let e = q.last();
        if c0 <= e.0 < c1 {
            assert forall|i: int, j: int| 0 <= i < j < t.len() implies #[trigger] t[i].0 != #[trigger] t[j].0 by {
                if j == p.len() {
                    let w = choose|w: int| 0 <= w < d.len() && #[trigger] p[i].0 + c0 == d[w].0;
                    assert(d[w] == q[w]);
                    assert(q[w].0 != q[q.len() - 1].0);
                } else {
                    assert(t[i] == p[i] && t[j] == p[j]);
                }
            }
        }
    }
}

} // verus!

verus! {

/// Placing two matrices side by side stores no position twice if neither does.
pub proof fn lemma_hcat_unique<T>(a: Seq<(usize, usize, T)>, b: Seq<(usize, usize, T)>, nrows: usize, ca: usize, cb: usize)
    requires
        in_shape(a, nrows, ca),
        in_shape(b, nrows, cb),
        ca + cb <= usize::MAX,
        unique_positions(a),
        unique_positions(b),
    ensures
        unique_positions(hcat_entries(a, b, ca)),
{
    assert forall|q: usize| cols_distinct(#[trigger] row_entries(hcat_entries(a, b, ca), q)) by {
        lemma_row_entries_concat(a, shifted(b, 0, ca), q);
        lemma_row_entries_shifted(b, ca, q);
        lemma_row_entries_cols(a, nrows, ca, q);
        lemma_row_entries_cols(b, nrows, cb, q);
        let x = row_entries(a, q);
        let y = row_entries(b, q);
        let ys = y.map_values(|p: (usize, T)| ((p.0 + ca) as usize, p.1));
        let w = x + ys;
        assert(cols_distinct(x));
        assert(cols_distinct(y));
        assert forall|i: int, j: int| 0 <= i < j < w.len() implies #[trigger] w[i].0 != #[trigger] w[j].0 by {
            if j < x.len() {
                assert(w[i] == x[i] && w[j] == x[j]);
            } else if i < x.len() {
                assert(w[i] == x[i]);
                assert(w[j] == ys[j - x.len()]);
                assert(y[j - x.len()].0 < cb);
            } else {
                assert(w[i] == ys[i - x.len()]);
                assert(w[j] == ys[j - x.len()]);
                assert(y[i - x.len()].0 < cb && y[j - x.len()].0 < cb);
                assert(y[i - x.len()].0 != y[j - x.len()].0);
            }
        }
    }
}

} // verus!

verus! {

/// The value a row holds in column `col`: the last stored pair there, or
/// `zero` when there is none.
pub open spec fn column_value<T>(q: Seq<(usize, T)>, col: usize, zero: T) -> T
    decreases q.len(),
{
    if q.len() == 0 {
        zero
    } else if q.last().0 == col {
        q.last().1
    } else {
        column_value(q.drop_last(), col, zero)
    }
}

} // verus!

verus! {

/// No two stored entries share a (row, column) position, read by index.
pub open spec fn distinct_positions<T>(s: Seq<(usize, usize, T)>) -> bool {
    forall|i: int, j: int| 0 <= i < j < s.len() ==> (#[trigger] s[i].0 != #[trigger] s[j].0 || s[i].1 != s[j].1)
}

/// Each pair of a row comes from a stored entry of that row.
proof fn lemma_row_entries_origin<T>(s: Seq<(usize, usize, T)>, r: usize)
    ensures
        forall|j: int|
            #![trigger row_entries(s, r)[j]]
            0 <= j < row_entries(s, r).len() ==> exists|a: int|
                #![trigger s[a]]
                0 <= a < s.len() && s[a].0 == r && row_entries(s, r)[j].0 == s[a].1,
    decreases s.len(),
{
    if s.len() > 0 {
        let d = s.drop_last();
        lemma_row_entries_origin(d, r);
        let p = row_entries(d, r);
        let q = row_entries(s, r);
        let e = s.last();
        if e.0 == r {
            assert(q == p.push((e.1, e.2)));
        } else {
            assert(q == p);
        }
        assert forall|j: int| #![trigger q[j]] 0 <= j < q.len() implies exists|a: int|
            #![trigger s[a]]
            0 <= a < s.len() && s[a].0 == r && q[j].0 == s[a].1 by {
            if j < p.len() {
                assert(q[j] == p[j]);
                assert(p[j] == p[j]);
                let a = choose|a: int| #![trigger d[a]] 0 <= a < d.len() && d[a].0 == r && p[j].0 == d[a].1;
                assert(d[a] == s[a]);
            } else {
                let a = s.len() - 1;
                assert(s[a] == e);
                assert(q[j].0 == s[a].1);
            }
        }
    }
}

/// Reading positions row by row or by index says the same thing.
pub proof fn lemma_unique_positions_by_index<T>(s: Seq<(usize, usize, T)>)
    ensures
        unique_positions(s) <==> distinct_positions(s),
    decreases s.len(),
{
    if unique_positions(s) {
        assert forall|i: int, j: int| 0 <= i < j < s.len() implies (#[trigger] s[i].0 != #[trigger] s[j].0 || s[i].1
            != s[j].1) by {
            if s[i].0 == s[j].0 && s[i].1 == s[j].1 {
                let r = s[i].0;
                let pi = row_entries(s.take(i), r).len();
                let pj = row_entries(s.take(j), r).len();
                assert(s.take(i + 1).drop_last() =~= s.take(i));
                assert(s.take(j + 1).drop_last() =~= s.take(j));
                lemma_row_entries_prefix(s, i + 1, r);
                lemma_row_entries_prefix(s, j + 1, r);
                assert(s.take(j).take(i + 1) =~= s.take(i + 1));
                lemma_row_entries_prefix(s.take(j), i + 1, r);
                assert(row_entries(s.take(i + 1), r)[pi as int] == (s[i].1, s[i].2));
                assert(row_entries(s.take(j + 1), r)[pj as int] == (s[j].1, s[j].2));
                assert(row_entries(s, r)[pi as int].0 == row_entries(s, r)[pj as int].0);
                assert(cols_distinct(row_entries(s, r)));
            }
        }
    }
    if distinct_positions(s) && s.len() > 0 {
        let d = s.drop_last();
        assert(distinct_positions(d)) by {
            assert forall|i: int, j: int| 0 <= i < j < d.len() implies (#[trigger] d[i].0 != #[trigger] d[j].0 || d[i].1
                != d[j].1) by {
                assert(d[i] == s[i] && d[j] == s[j]);
            }
        }
        lemma_unique_positions_by_index(d);
        let e = s.last();
        assert forall|r: usize| cols_distinct(#[trigger] row_entries(s, r)) by {
            assert(cols_distinct(row_entries(d, r)));
            if e.0 == r {
                lemma_row_entries_origin(d, r);
                let p = row_entries(d, r);
                let q = row_entries(s, r);
                assert forall|i: int, j: int| 0 <= i < j < q.len() implies #[trigger] q[i].0 != #[trigger] q[j].0 by {
                    if j == p.len() {
                        assert(p[i] == p[i]);
                        let a = choose|a: int| #![trigger d[a]] 0 <= a < d.len() && d[a].0 == r && p[i].0 == d[a].1;
                        assert(d[a] == s[a]);
                        assert(s[a].0 != s[s.len() - 1].0 || s[a].1 != s[s.len() - 1].1);
                    } else {
                        assert(q[i] == p[i] && q[j] == p[j]);
                    }
                }
            }
        }
    }
}

} // verus!
