//! Error variants reported by the alignment entry points.
use vstd::prelude::*;

verus! {

/// Error variants returned by the alignment functions (`orthogonal`,
/// `rotation_only`, `signed_permutation`, `sign_align`, `generalized`).
#[derive(Debug, Clone, Copy)]
#[non_exhaustive]
pub enum ProcrustesError {
    /// `a` and `reference` differ in shape.
    DimensionMismatch {
        /// rows of `a`.
        a_rows: usize,
        /// columns of `a`.
        a_cols: usize,
        /// rows of `reference`.
        ref_rows: usize,
        /// columns of `reference`.
        ref_cols: usize,
    },
    /// At least one input dimension is zero.
    EmptyInput,
    /// Options validation failed; the message identifies the offending
    /// option (invalid weights, or `procrustes_form` with a zero-norm input).
    InvalidOptions(&'static str),
    /// `check_finite` was `true` and at least one input value was NaN or infinite.
    NonFinite,
}

} // verus!
