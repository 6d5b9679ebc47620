//! Input validation shared by the alignment entry points.
//!
//! The numerical inputs themselves never reach this module: the caller
//! hands over their shapes and, where a check depends on a value, the class
//! of that value (finite or not, sign).
use vstd::prelude::*;

use crate::error::ProcrustesError;

verus! {

/// `true` when two shapes agree.
pub open spec fn same_shape(a: (usize, usize), b: (usize, usize)) -> bool {
    a.0 == b.0 && a.1 == b.1
}

/// Checks an `(a, reference)` pair before a pairwise alignment.
///
/// `all_finite` states whether every entry of both matrices is finite; it is
/// only consulted when `check_finite` is set. Checks run in this order:
/// shape mismatch, empty input, non-finite input.
pub fn validate_pair(
    a_rows: usize,
    a_cols: usize,
    ref_rows: usize,
    ref_cols: usize,
    check_finite: bool,
    all_finite: bool,
) -> (r: Result<(), ProcrustesError>)
    ensures
        r is Ok <==> (a_rows == ref_rows && a_cols == ref_cols && a_rows > 0 && a_cols > 0 && (
        check_finite ==> all_finite)),
        (a_rows != ref_rows || a_cols != ref_cols) ==> r == Err::<(), ProcrustesError>(
            (ProcrustesError::DimensionMismatch { a_rows, a_cols, ref_rows, ref_cols }),
        ),
        (a_rows == ref_rows && a_cols == ref_cols && (a_rows == 0 || a_cols == 0)) ==> r == Err::<
            (),
            ProcrustesError,
        >(ProcrustesError::EmptyInput),
        (a_rows == ref_rows && a_cols == ref_cols && a_rows > 0 && a_cols > 0 && check_finite
            && !all_finite) ==> r == Err::<(), ProcrustesError>(ProcrustesError::NonFinite),
{
    if a_rows != ref_rows || a_cols != ref_cols {
        return Err(ProcrustesError::DimensionMismatch { a_rows, a_cols, ref_rows, ref_cols });
    }
    if a_rows == 0 || a_cols == 0 {
        return Err(ProcrustesError::EmptyInput);
    }
    if check_finite && !all_finite {
        return Err(ProcrustesError::NonFinite);
    }
    Ok(())
}

/// `true` when every shape of `shapes` equals the first one.
pub open spec fn all_same_shape(shapes: Seq<(usize, usize)>) -> bool {
    forall|i: int| 0 <= i < shapes.len() ==> same_shape(#[trigger] shapes[i], shapes[0])
}

/// `i` is the first index whose shape differs from `shapes[0]`.
pub open spec fn is_first_mismatch(shapes: Seq<(usize, usize)>, i: int) -> bool {
    &&& 1 <= i < shapes.len()
    &&& !same_shape(shapes[i], shapes[0])
    &&& forall|j: int| 0 <= j < i ==> same_shape(#[trigger] shapes[j], shapes[0])
}

/// Checks the shapes of the matrices given to GPA: there must be at least
/// one, the first must have no zero dimension, and all must share its
/// shape. The first matrix that differs is the one reported.
pub fn validate_shapes(shapes: &Vec<(usize, usize)>) -> (r: Result<(), ProcrustesError>)
    ensures
        r is Ok <==> (shapes@.len() > 0 && shapes@[0].0 > 0 && shapes@[0].1 > 0 && all_same_shape(
            shapes@,
        )),
        (shapes@.len() == 0 || shapes@[0].0 == 0 || shapes@[0].1 == 0) ==> r == Err::<
            (),
            ProcrustesError,
        >(ProcrustesError::EmptyInput),
        (shapes@.len() > 0 && shapes@[0].0 > 0 && shapes@[0].1 > 0 && !all_same_shape(shapes@))
            ==> exists|i: int|
            is_first_mismatch(shapes@, i) && r == Err::<(), ProcrustesError>(
                (ProcrustesError::DimensionMismatch {
                    a_rows: shapes@[i].0,
                    a_cols: shapes@[i].1,
                    ref_rows: shapes@[0].0,
                    ref_cols: shapes@[0].1,
                }),
            ),
{
    if shapes.len() == 0 {
        return Err(ProcrustesError::EmptyInput);
    }
    let (ref_rows, ref_cols) = shapes[0];
    if ref_rows == 0 || ref_cols == 0 {
        return Err(ProcrustesError::EmptyInput);
    }
    let mut i: usize = 1;
    while i < shapes.len()
        invariant
            1 <= i <= shapes@.len(),
            ref_rows > 0,
            ref_cols > 0,
            ref_rows == shapes@[0].0,
            ref_cols == shapes@[0].1,
            forall|j: int| 0 <= j < i ==> same_shape(#[trigger] shapes@[j], shapes@[0]),
        decreases shapes@.len() - i,
    {
        let (rows, cols) = shapes[i];
        if rows != ref_rows || cols != ref_cols {
            assert(is_first_mismatch(shapes@, i as int));
            return Err(
                ProcrustesError::DimensionMismatch {
                    a_rows: rows,
                    a_cols: cols,
                    ref_rows,
                    ref_cols,
                },
            );
        }
        i = i + 1;
    }
    Ok(())
}

/// The class of one GPA weight, which is all that weight validation and
/// the weighted mean read of it.
#[derive(Debug, Clone, Copy, PartialEq, Eq, Structural)]
pub enum WeightClass {
    /// Finite and strictly positive.
    Positive,
    /// Finite and equal to zero (of either sign).
    Zero,
    /// Finite and strictly negative.
    Negative,
    /// NaN or infinite.
    NonFinite,
}

/// `i` is the first weight that is not finite and non-negative.
pub open spec fn is_first_bad_weight(w: Seq<WeightClass>, i: int) -> bool {
    &&& 0 <= i < w.len()
    &&& (w[i] is Negative || w[i] is NonFinite)
    &&& forall|j: int| 0 <= j < i ==> (#[trigger] w[j] is Positive || w[j] is Zero)
}

/// Checks the optional GPA weights against the number of matrices.
///
/// A weight vector must have one entry per matrix, every entry finite and
/// non-negative, and a strictly positive sum. For finite non-negative
/// weights the sum is positive exactly when one of them is positive, since
/// adding a non-negative number never lowers a floating-point sum.
pub fn validate_weights(n_matrices: usize, weights: &Vec<WeightClass>) -> (r: Result<
    (),
    ProcrustesError,
>)
    ensures
        r is Ok <==> (weights@.len() == n_matrices && (forall|i: int|
            0 <= i < weights@.len() ==> (#[trigger] weights@[i] is Positive || weights@[i] is Zero))
            && exists|i: int| 0 <= i < weights@.len() && #[trigger] weights@[i] is Positive),
        weights@.len() != n_matrices ==> r == Err::<(), ProcrustesError>(
            ProcrustesError::InvalidOptions("weights length must equal matrices length"),
        ),
        forall|i: int|
            weights@.len() == n_matrices && is_first_bad_weight(weights@, i) ==> r == Err::<
                (),
                ProcrustesError,
            >(
                ProcrustesError::InvalidOptions(
                    if weights@[i] is NonFinite {
                        "weights contain non-finite value"
                    } else {
                        "weights contain negative value"
                    },
                ),
            ),
        (weights@.len() == n_matrices && forall|i: int|
            0 <= i < weights@.len() ==> #[trigger] weights@[i] is Zero) ==> r == Err::<
            (),
            ProcrustesError,
        >(ProcrustesError::InvalidOptions("weights sum to zero")),
{
    if weights.len() != n_matrices {
        return Err(ProcrustesError::InvalidOptions("weights length must equal matrices length"));
    }
    let mut any_positive = false;
    let mut i: usize = 0;
    while i < weights.len()
        invariant
            0 <= i <= weights@.len(),
            weights@.len() == n_matrices,
            forall|j: int| 0 <= j < i ==> (#[trigger] weights@[j] is Positive || weights@[j] is Zero),
            any_positive <==> exists|j: int| 0 <= j < i && #[trigger] weights@[j] is Positive,
        decreases weights@.len() - i,
    {
        match weights[i] {
            WeightClass::NonFinite => {
                assert(is_first_bad_weight(weights@, i as int));
                return Err(ProcrustesError::InvalidOptions("weights contain non-finite value"));
            },
            WeightClass::Negative => {
                assert(is_first_bad_weight(weights@, i as int));
                return Err(ProcrustesError::InvalidOptions("weights contain negative value"));
            },
            WeightClass::Positive => {
                any_positive = true;
            },
            WeightClass::Zero => {},
        }
        i = i + 1;
    }
    if !any_positive {
        return Err(ProcrustesError::InvalidOptions("weights sum to zero"));
    }
    Ok(())
}

/// Checks the Procrustes-form pre-scaling: with `procrustes_form` set, every
/// input must have a Frobenius norm of at least machine epsilon.
/// `tiny_norm[i]` states that input `i` falls below it.
pub fn validate_procrustes_form(procrustes_form: bool, tiny_norm: &Vec<bool>) -> (r: Result<
    (),
    ProcrustesError,
>)
    ensures
        r is Ok <==> !(procrustes_form && exists|i: int|
            0 <= i < tiny_norm@.len() && #[trigger] tiny_norm@[i]),
        r is Err ==> r == Err::<(), ProcrustesError>(
            ProcrustesError::InvalidOptions("procrustes_form requires non-zero inputs"),
        ),
{
    if !procrustes_form {
        return Ok(());
    }
    let mut i: usize = 0;
    while i < tiny_norm.len()
        invariant
            0 <= i <= tiny_norm@.len(),
            procrustes_form,
            forall|j: int| 0 <= j < i ==> !#[trigger] tiny_norm@[j],
        decreases tiny_norm@.len() - i,
    {
        if tiny_norm[i] {
            return Err(ProcrustesError::InvalidOptions("procrustes_form requires non-zero inputs"));
        }
        i = i + 1;
    }
    Ok(())
}

} // verus!
