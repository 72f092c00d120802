use vstd::prelude::*;
use vstd::multiset::Multiset;
use crate::spec::{hcat_entries, in_shape, lemma_rows_equal_multiset, row_entries, selected, shifted};

verus! {

broadcast use vstd::seq_lib::group_to_multiset_ensures;

proof fn lemma_outside_shape_absent<T>(s: Seq<(usize, usize, T)>, nrows: usize, ncols: usize, x: (usize, usize, T))
    requires
        in_shape(s, nrows, ncols),
        !(x.0 < nrows && x.1 < ncols),
    ensures
        s.to_multiset().count(x) == 0,
{
    if s.to_multiset().count(x) > 0 {
        assert(s.contains(x));
        let k = choose|k: int| 0 <= k < s.len() && s[k] == x;
        assert(s[k].0 < nrows && s[k].1 < ncols);
    }
}

proof fn lemma_in_shape_drop_last<T>(s: Seq<(usize, usize, T)>, nrows: usize, ncols: usize)
    requires
        in_shape(s, nrows, ncols),
        s.len() > 0,
    ensures
        in_shape(s.drop_last(), nrows, ncols),
        s.last().0 < nrows && s.last().1 < ncols,
{
    assert forall|k: int| #![trigger s.drop_last()[k]] 0 <= k < s.drop_last().len() implies s.drop_last()[k].0 < nrows
        && s.drop_last()[k].1 < ncols by {
        assert(s.drop_last()[k] == s[k]);
    }
    assert(s[s.len() - 1].0 < nrows);
}

/// How often a triplet occurs in a block: as often as the source triplet it
/// was re-based from, and never if it lies outside the block's shape.
proof fn lemma_selected_count<T>(s: Seq<(usize, usize, T)>, r0: usize, r1: usize, c0: usize, c1: usize, x: (usize, usize, T))
    requires
        r0 <= r1,
        c0 <= c1,
    ensures
        selected(s, r0, r1, c0, c1).to_multiset().count(x) == if x.0 < r1 - r0 && x.1 < c1 - c0 {
            s.to_multiset().count(((x.0 + r0) as usize, (x.1 + c0) as usize, x.2))
        } else {
            0
        },
    decreases s.len(),
{
    if s.len() == 0 {
        assert(!selected(s, r0, r1, c0, c1).contains(x));
        assert(!s.contains(((x.0 + r0) as usize, (x.1 + c0) as usize, x.2)));
    } else {
        lemma_selected_count(s.drop_last(), r0, r1, c0, c1, x);
        assert(s =~= s.drop_last().push(s.last()));
    }
}

/// How often a triplet occurs once a listing is moved by (`r0`, `c0`).
proof fn lemma_shifted_count<T>(s: Seq<(usize, usize, T)>, nrows: usize, ncols: usize, r0: usize, c0: usize, x: (usize, usize, T))
    requires
        in_shape(s, nrows, ncols),
        nrows + r0 <= usize::MAX,
        ncols + c0 <= usize::MAX,
    ensures
        shifted(s, r0, c0).to_multiset().count(x) == if x.0 >= r0 && x.1 >= c0 {
            s.to_multiset().count(((x.0 - r0) as usize, (x.1 - c0) as usize, x.2))
        } else {
            0
        },
    decreases s.len(),
{
    let y = ((x.0 - r0) as usize, (x.1 - c0) as usize, x.2);
    if s.len() == 0 {
        assert(!shifted(s, r0, c0).contains(x));
        assert(!s.contains(y));
    } else {
        lemma_in_shape_drop_last(s, nrows, ncols);
        lemma_shifted_count(s.drop_last(), nrows, ncols, r0, c0, x);
        assert(s =~= s.drop_last().push(s.last()));
        assert(shifted(s, r0, c0) =~= shifted(s.drop_last(), r0, c0).push(shifted(s, r0, c0).last()));
    }
}

/// Selecting the whole matrix gives back its entries unchanged, in order.
pub proof fn law_select_full<T>(s: Seq<(usize, usize, T)>, nrows: usize, ncols: usize)
    requires
        in_shape(s, nrows, ncols),
    ensures
        selected(s, 0, nrows, 0, ncols) == s,
    decreases s.len(),
{
    if s.len() > 0 {
        lemma_in_shape_drop_last(s, nrows, ncols);
        law_select_full(s.drop_last(), nrows, ncols);
        assert(s =~= s.drop_last().push(s.last()));
    }
}

/// The entries of block (`r0..r1`, `c0..c1`), moved back to where they came from.
pub open spec fn block_back<T>(s: Seq<(usize, usize, T)>, r0: usize, r1: usize, c0: usize, c1: usize) -> Multiset<
    (usize, usize, T),
> {
    shifted(selected(s, r0, r1, c0, c1), r0, c0).to_multiset()
}

/// Cut points: they start at zero, never decrease and end at `n`.
pub open spec fn cuts(c: Seq<usize>, n: usize) -> bool {
    &&& c.len() >= 1
    &&& c[0] == 0
    &&& c.last() == n
    &&& forall|i: int, j: int| 0 <= i <= j < c.len() ==> #[trigger] c[i] <= #[trigger] c[j]
}

/// The blocks of rows `r0..r1` cut at the first `nb + 1` column cut points,
/// moved back and gathered.
pub open spec fn band_back<T>(s: Seq<(usize, usize, T)>, r0: usize, r1: usize, cc: Seq<usize>, nb: nat) -> Multiset<
    (usize, usize, T),
>
    decreases nb,
{
    if nb == 0 {
        Multiset::empty()
    } else {
        band_back(s, r0, r1, cc, (nb - 1) as nat).add(block_back(s, r0, r1, cc[nb - 1], cc[nb as int]))
    }
}

/// Every block of the grid cut at the first `na + 1` row cut points and at
/// all column cut points, moved back and gathered.
pub open spec fn grid_back<T>(s: Seq<(usize, usize, T)>, rc: Seq<usize>, cc: Seq<usize>, na: nat) -> Multiset<
    (usize, usize, T),
>
    decreases na,
{
    if na == 0 {
        Multiset::empty()
    } else {
        grid_back(s, rc, cc, (na - 1) as nat).add(band_back(s, rc[na - 1], rc[na as int], cc, (cc.len() - 1) as nat))
    }
}

proof fn lemma_block_back_count<T>(
    s: Seq<(usize, usize, T)>,
    nrows: usize,
    ncols: usize,
    r0: usize,
    r1: usize,
    c0: usize,
    c1: usize,
    x: (usize, usize, T),
)
    requires
        in_shape(s, nrows, ncols),
        r0 <= r1 <= nrows,
        c0 <= c1 <= ncols,
    ensures
        block_back(s, r0, r1, c0, c1).count(x) == if r0 <= x.0 < r1 && c0 <= x.1 < c1 {
            s.to_multiset().count(x)
        } else {
            0
        },
{
    lemma_block_shape(s, nrows, ncols, r0, r1, c0, c1);
    lemma_shifted_count(selected(s, r0, r1, c0, c1), (r1 - r0) as usize, (c1 - c0) as usize, r0, c0, x);
    lemma_selected_count(s, r0, r1, c0, c1, ((x.0 - r0) as usize, (x.1 - c0) as usize, x.2));
}

proof fn lemma_band_back_count<T>(
    s: Seq<(usize, usize, T)>,
    nrows: usize,
    ncols: usize,
    r0: usize,
    r1: usize,
    cc: Seq<usize>,
    nb: nat,
    x: (usize, usize, T),
)
    requires
        in_shape(s, nrows, ncols),
        r0 <= r1 <= nrows,
        cuts(cc, ncols),
        nb < cc.len(),
    ensures
        band_back(s, r0, r1, cc, nb).count(x) == if r0 <= x.0 < r1 && cc[0] <= x.1 < cc[nb as int] {
            s.to_multiset().count(x)
        } else {
            0
        },
    decreases nb,
{
    if nb > 0 {
        lemma_band_back_count(s, nrows, ncols, r0, r1, cc, (nb - 1) as nat, x);
        assert(cc[nb - 1] <= cc[nb as int] <= cc[cc.len() - 1]);
        assert(cc[0] <= cc[nb - 1]);
        lemma_block_back_count(s, nrows, ncols, r0, r1, cc[nb - 1], cc[nb as int], x);
    }
}

proof fn lemma_grid_back_count<T>(
    s: Seq<(usize, usize, T)>,
    nrows: usize,
    ncols: usize,
    rc: Seq<usize>,
    cc: Seq<usize>,
    na: nat,
    x: (usize, usize, T),
)
    requires
        in_shape(s, nrows, ncols),
        cuts(rc, nrows),
        cuts(cc, ncols),
        na < rc.len(),
    ensures
        grid_back(s, rc, cc, na).count(x) == if rc[0] <= x.0 < rc[na as int] && x.1 < ncols {
            s.to_multiset().count(x)
        } else {
            0
        },
    decreases na,
{
    if na > 0 {
        lemma_grid_back_count(s, nrows, ncols, rc, cc, (na - 1) as nat, x);
        assert(rc[na - 1] <= rc[na as int] <= rc[rc.len() - 1]);
        assert(rc[0] <= rc[na - 1]);
        lemma_band_back_count(s, nrows, ncols, rc[na - 1], rc[na as int], cc, (cc.len() - 1) as nat, x);
    }
}

/// Cutting a matrix into a grid of blocks, at any row cut points `rc` and
/// column cut points `cc`, loses and duplicates nothing: the blocks'
/// entries, each moved back by its block's origin, are exactly the matrix's
/// entries.
pub proof fn law_select_partition<T>(s: Seq<(usize, usize, T)>, nrows: usize, ncols: usize, rc: Seq<usize>, cc: Seq<usize>)
    requires
        in_shape(s, nrows, ncols),
        cuts(rc, nrows),
        cuts(cc, ncols),
    ensures
        grid_back(s, rc, cc, (rc.len() - 1) as nat) == s.to_multiset(),
{
    let g = grid_back(s, rc, cc, (rc.len() - 1) as nat);
    assert forall|x: (usize, usize, T)| g.count(x) == s.to_multiset().count(x) by {
        lemma_grid_back_count(s, nrows, ncols, rc, cc, (rc.len() - 1) as nat, x);
        if !(x.0 < nrows && x.1 < ncols) {
            lemma_outside_shape_absent(s, nrows, ncols, x);
        }
    }
    assert(g =~= s.to_multiset());
}

proof fn lemma_block_shape<T>(s: Seq<(usize, usize, T)>, nrows: usize, ncols: usize, r0: usize, r1: usize, c0: usize, c1: usize)
    requires
        r0 <= r1,
        c0 <= c1,
    ensures
        in_shape(selected(s, r0, r1, c0, c1), (r1 - r0) as usize, (c1 - c0) as usize),
    decreases s.len(),
{
    let t = selected(s, r0, r1, c0, c1);
    if s.len() > 0 {
        lemma_block_shape(s.drop_last(), nrows, ncols, r0, r1, c0, c1);
        let p = selected(s.drop_last(), r0, r1, c0, c1);
        assert forall|k: int| #![trigger t[k]] 0 <= k < t.len() implies t[k].0 < (r1 - r0) as usize && t[k].1 < (c1 - c0) as usize by {
            if k < p.len() {
                assert(t[k] == p[k]);
            }
        }
    }
}

/// Selecting the first operand's columns from a concatenation gives back
/// that operand's entries; selecting the second operand's columns gives
/// back the second operand's entries, re-based to column zero. `t` is any
/// listing of the concatenation, in whatever order.
pub proof fn law_hcat_select<T>(
    a: Seq<(usize, usize, T)>,
    b: Seq<(usize, usize, T)>,
    nrows: usize,
    ca: usize,
    cb: usize,
    t: Seq<(usize, usize, T)>,
)
    requires
        in_shape(a, nrows, ca),
        in_shape(b, nrows, cb),
        ca + cb <= usize::MAX,
        t.to_multiset() == hcat_entries(a, b, ca).to_multiset(),
    ensures
        selected(t, 0, nrows, 0, ca).to_multiset() == a.to_multiset(),
        selected(t, 0, nrows, ca, (ca + cb) as usize).to_multiset() == b.to_multiset(),
{
    vstd::seq_lib::lemma_multiset_commutative(a, shifted(b, 0, ca));
    let left = selected(t, 0, nrows, 0, ca);
    let right = selected(t, 0, nrows, ca, (ca + cb) as usize);
    assert forall|x: (usize, usize, T)| left.to_multiset().count(x) == a.to_multiset().count(x) by {
        lemma_selected_count(t, 0, nrows, 0, ca, x);
        lemma_shifted_count(b, nrows, cb, 0, ca, x);
        if !(x.0 < nrows && x.1 < ca) {
            lemma_outside_shape_absent(a, nrows, ca, x);
        }
    }
    assert forall|x: (usize, usize, T)| right.to_multiset().count(x) == b.to_multiset().count(x) by {
        let y = (x.0, (x.1 + ca) as usize, x.2);
        lemma_selected_count(t, 0, nrows, ca, (ca + cb) as usize, x);
        lemma_shifted_count(b, nrows, cb, 0, ca, y);
        if x.0 < nrows && x.1 < cb {
            lemma_outside_shape_absent(a, nrows, ca, y);
        } else {
            lemma_outside_shape_absent(b, nrows, cb, x);
        }
    }
    assert(left.to_multiset() =~= a.to_multiset());
    assert(right.to_multiset() =~= b.to_multiset());
}

/// Converting to compressed-row form keeps every row's entries, so listing
/// the result again gives the same multiset of triplets.
pub proof fn law_round_trip<T>(a: Seq<(usize, usize, T)>, b: Seq<(usize, usize, T)>)
    requires
        forall|r: usize| #[trigger] row_entries(b, r) == row_entries(a, r),
    ensures
        b.to_multiset() == a.to_multiset(),
{
    lemma_rows_equal_multiset(b, a);
}

} // verus!
