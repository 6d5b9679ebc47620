use procrustes::validate::{validate_pair, validate_procrustes_form, validate_shapes, validate_weights, WeightClass};
use procrustes::ProcrustesError;

#[test]
fn pair_with_matching_shapes_is_accepted() {
    assert!(validate_pair(5, 3, 5, 3, true, true).is_ok());
    assert!(validate_pair(1, 1, 1, 1, false, true).is_ok());
}

#[test]
fn pair_with_zero_rows_or_columns_is_empty_input() {
    assert!(matches!(validate_pair(0, 3, 0, 3, false, true), Err(ProcrustesError::EmptyInput)));
    assert!(matches!(validate_pair(5, 0, 5, 0, false, true), Err(ProcrustesError::EmptyInput)));
}

#[test]
fn pair_with_different_shapes_reports_both_shapes() {
    match validate_pair(5, 3, 4, 3, false, true) {
        Err(ProcrustesError::DimensionMismatch { a_rows, a_cols, ref_rows, ref_cols }) => {
            assert_eq!((a_rows, a_cols, ref_rows, ref_cols), (5, 3, 4, 3));
        }
        other => panic!("unexpected {other:?}"),
    }
    assert!(matches!(
        validate_pair(5, 3, 5, 2, false, true),
        Err(ProcrustesError::DimensionMismatch { a_rows: 5, a_cols: 3, ref_rows: 5, ref_cols: 2 })
    ));
}

#[test]
fn mismatch_is_reported_before_empty_input() {
    assert!(matches!(
        validate_pair(0, 3, 4, 3, true, false),
        Err(ProcrustesError::DimensionMismatch { .. })
    ));
}

#[test]
fn non_finite_input_rejected_only_when_checked() {
    assert!(matches!(validate_pair(3, 2, 3, 2, true, false), Err(ProcrustesError::NonFinite)));
    assert!(validate_pair(3, 2, 3, 2, false, false).is_ok());
    // Empty input wins over non-finite.
    assert!(matches!(validate_pair(0, 2, 0, 2, true, false), Err(ProcrustesError::EmptyInput)));
}

#[test]
fn gpa_shapes_empty_list_is_empty_input() {
    assert!(matches!(validate_shapes(&vec![]), Err(ProcrustesError::EmptyInput)));
}

#[test]
fn gpa_shapes_zero_dimension_is_empty_input() {
    assert!(matches!(validate_shapes(&vec![(0, 3)]), Err(ProcrustesError::EmptyInput)));
    assert!(matches!(validate_shapes(&vec![(4, 0), (4, 3)]), Err(ProcrustesError::EmptyInput)));
}

#[test]
fn gpa_shapes_first_mismatch_is_reported() {
    assert!(matches!(
        validate_shapes(&vec![(4, 3), (4, 3), (4, 2), (5, 3)]),
        Err(ProcrustesError::DimensionMismatch { a_rows: 4, a_cols: 2, ref_rows: 4, ref_cols: 3 })
    ));
    assert!(validate_shapes(&vec![(4, 3), (4, 3), (4, 3)]).is_ok());
}

#[test]
fn weights_of_wrong_length_are_rejected() {
    let w = vec![WeightClass::Positive, WeightClass::Positive];
    match validate_weights(3, &w) {
        Err(ProcrustesError::InvalidOptions(msg)) => {
            assert_eq!(msg, "weights length must equal matrices length")
        }
        other => panic!("unexpected {other:?}"),
    }
}

#[test]
fn weights_first_bad_entry_decides_the_message() {
    let w = vec![WeightClass::Positive, WeightClass::NonFinite, WeightClass::Negative];
    match validate_weights(3, &w) {
        Err(ProcrustesError::InvalidOptions(msg)) => assert_eq!(msg, "weights contain non-finite value"),
        other => panic!("unexpected {other:?}"),
    }
    let w = vec![WeightClass::Negative, WeightClass::Positive, WeightClass::NonFinite];
    match validate_weights(3, &w) {
        Err(ProcrustesError::InvalidOptions(msg)) => assert_eq!(msg, "weights contain negative value"),
        other => panic!("unexpected {other:?}"),
    }
}

#[test]
fn all_zero_weights_sum_to_zero() {
    let w = vec![WeightClass::Zero, WeightClass::Zero, WeightClass::Zero];
    match validate_weights(3, &w) {
        Err(ProcrustesError::InvalidOptions(msg)) => assert_eq!(msg, "weights sum to zero"),
        other => panic!("unexpected {other:?}"),
    }
}

#[test]
fn one_positive_weight_is_enough() {
    let w = vec![WeightClass::Zero, WeightClass::Positive, WeightClass::Zero];
    assert!(validate_weights(3, &w).is_ok());
}

#[test]
fn procrustes_form_rejects_a_tiny_norm() {
    match validate_procrustes_form(true, &vec![false, true]) {
        Err(ProcrustesError::InvalidOptions(msg)) => {
            assert_eq!(msg, "procrustes_form requires non-zero inputs")
        }
        other => panic!("unexpected {other:?}"),
    }
    assert!(validate_procrustes_form(true, &vec![false, false]).is_ok());
    assert!(validate_procrustes_form(false, &vec![]).is_ok());
}
