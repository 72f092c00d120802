//! Sparse matrices in coordinate and compressed-row form, with the structural
//! operators (block selection, column concatenation, elementwise scaling and
//! per-row aggregation) that a latent-factor gradient step is built from.
//!
//! Stored values are generic: the structural operators never look at them,
//! and the arithmetic ones take the scalar operation as a closure, so that
//! every index manipulation is verified independently of the number type.
mod error;
mod spec;
mod coo;
mod csr;
mod kernel;
mod laws;

pub use error::SparseError;
pub use spec::{
    col_selected, cols_distinct, column_value, fold_trace, folds_to, hcat_entries, in_shape, left_identity, row_entries, row_sorted, selected, shifted, unique_positions, zip3,
    MatrixView,
};
pub use coo::CooMatrix;
pub use csr::{hcat, CsrMatrix};
pub use kernel::check_update_shapes;
pub use laws::{
    band_back, block_back, cuts, grid_back, law_hcat_select, law_round_trip, law_select_full, law_select_partition,
};
