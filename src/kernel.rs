use vstd::prelude::*;
use crate::error::SparseError;

verus! {

/// Checks the operands of one latent-factor update before any arithmetic:
/// an interaction matrix `x` of `x_rows` observations by `x_cols` features,
/// a loss vector of `losses` elements, a cross-term table `cross`, a factor
/// table `v` and its previous delta `dv` (each as rows, columns), and a
/// factor count `factors`.
///
/// The loss vector needs one element per observation, the cross-term table
/// one row per observation, the factor table one row per feature, the delta
/// the factor table's shape, and every table `factors` columns. The first
/// disagreement in that order is reported with both shapes.
pub fn check_update_shapes(
    x_rows: usize,
    x_cols: usize,
    losses: usize,
    cross: (usize, usize),
    v: (usize, usize),
    dv: (usize, usize),
    factors: usize,
) -> (r: Result<(), SparseError>)
    ensures
        r.is_ok() <==> (x_rows > 0 && losses == x_rows && cross == (x_rows, factors) && v == (x_cols, factors)
            && dv == v),
        x_rows == 0 ==> r == Err::<(), SparseError>(SparseError::NoObservations),
        x_rows > 0 && losses != x_rows ==> r == Err::<(), SparseError>(
            SparseError::Shape { left: (x_rows, x_cols), right: (losses, 1) },
        ),
        x_rows > 0 && losses == x_rows && cross != (x_rows, factors) ==> r == Err::<(), SparseError>(
            SparseError::Shape { left: (x_rows, factors), right: cross },
        ),
        x_rows > 0 && losses == x_rows && cross == (x_rows, factors) && v != (x_cols, factors) ==> r == Err::<
            (),
            SparseError,
        >(SparseError::Shape { left: (x_cols, factors), right: v }),
        x_rows > 0 && losses == x_rows && cross == (x_rows, factors) && v == (x_cols, factors) && dv != v ==> r
            == Err::<(), SparseError>(SparseError::Shape { left: v, right: dv }),
{
    if x_rows == 0 {
        return Err(SparseError::NoObservations);
    }
    if losses != x_rows {
        return Err(SparseError::Shape { left: (x_rows, x_cols), right: (losses, 1) });
    }
    if cross.0 != x_rows || cross.1 != factors {
        return Err(SparseError::Shape { left: (x_rows, factors), right: cross });
    }
    if v.0 != x_cols || v.1 != factors {
        return Err(SparseError::Shape { left: (x_cols, factors), right: v });
    }
    if dv.0 != v.0 || dv.1 != v.1 {
        return Err(SparseError::Shape { left: v, right: dv });
    }
    Ok(())
}

} // verus!
