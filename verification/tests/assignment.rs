use procrustes::assignment::{assignment_method, augment_path, claim_rows, AssignmentMethod, BRUTE_FORCE_CUTOFF};

#[test]
fn method_switches_after_cutoff() {
    assert_eq!(BRUTE_FORCE_CUTOFF, 3);
    assert_eq!(assignment_method(1), AssignmentMethod::BruteForce);
    assert_eq!(assignment_method(3), AssignmentMethod::BruteForce);
    assert_eq!(assignment_method(4), AssignmentMethod::JonkerVolgenant);
    assert_eq!(assignment_method(10), AssignmentMethod::JonkerVolgenant);
}

#[test]
fn claim_rows_keeps_last_column_of_each_row() {
    let mut in_col = vec![2, 0, 2, 1];
    let mut in_row = vec![0, 0, 0, 0];
    let (free, sole) = claim_rows(&mut in_col, &mut in_row);
    assert_eq!(in_col, vec![usize::MAX, 0, 2, 1]);
    assert_eq!(in_row, vec![1, 3, 2, 0]);
    assert_eq!(free, vec![3]);
    assert_eq!(sole, vec![true, true, false, false]);
}

#[test]
fn claim_rows_all_columns_on_one_row() {
    let mut in_col = vec![1, 1, 1];
    let mut in_row = vec![0, 0, 0];
    let (free, sole) = claim_rows(&mut in_col, &mut in_row);
    assert_eq!(in_col, vec![usize::MAX, usize::MAX, 1]);
    assert_eq!(in_row, vec![0, 2, 0]);
    assert_eq!(free, vec![0, 2]);
    assert_eq!(sole, vec![false, false, false]);
}

#[test]
fn claim_rows_identity_is_a_full_matching() {
    let mut in_col = vec![0, 1, 2];
    let mut in_row = vec![0, 0, 0];
    let (free, sole) = claim_rows(&mut in_col, &mut in_row);
    assert_eq!(in_col, vec![0, 1, 2]);
    assert_eq!(in_row, vec![0, 1, 2]);
    assert!(free.is_empty());
    assert_eq!(sole, vec![true, true, true]);
}

#[test]
fn augment_flips_alternating_path() {
    // col 0 ↔ row 0, col 2 ↔ row 1; row 2 is free; column 1 is unmatched.
    let mut in_col = vec![0, usize::MAX, 1];
    let mut in_row = vec![0, 2, 0];
    let pred = vec![2, 1, 0];
    let reached = augment_path(&mut in_col, &mut in_row, &pred, 2, 1);
    assert!(reached);
    assert_eq!(in_col, vec![2, 1, 0]);
    assert_eq!(in_row, vec![2, 1, 0]);
}

#[test]
fn augment_single_step() {
    let mut in_col = vec![usize::MAX, 1];
    let mut in_row = vec![0, 1];
    let pred = vec![0, 0];
    assert!(augment_path(&mut in_col, &mut in_row, &pred, 0, 0));
    assert_eq!(in_col, vec![0, 1]);
    assert_eq!(in_row, vec![0, 1]);
}

#[test]
fn augment_reports_a_path_that_never_reaches_the_free_row() {
    let mut in_col = vec![0, usize::MAX];
    let mut in_row = vec![0, 0];
    let pred = vec![0, 0];
    assert!(!augment_path(&mut in_col, &mut in_row, &pred, 1, 1));
}

use procrustes::assignment::RowReduction;

#[test]
fn row_reduction_takes_the_second_column_when_the_first_is_held() {
    let mut in_col = vec![usize::MAX, 0, 2];
    let mut in_row = vec![1, 0, 2];
    let mut pass = RowReduction::new(vec![1], 3);
    assert_eq!(pass.next_row(), Some(1));
    assert!(!pass.step(&mut in_col, &mut in_row, 1, Some(0), false));
    assert_eq!(in_col, vec![1, 0, 2]);
    assert_eq!(in_row, vec![1, 0, 2]);
    assert_eq!(pass.next_row(), None);
    assert!(pass.finish().is_empty());
}

#[test]
fn row_reduction_requeues_the_displaced_row_when_lowering() {
    let mut in_col = vec![usize::MAX, 0, 2];
    let mut in_row = vec![1, 0, 2];
    let mut pass = RowReduction::new(vec![1], 3);
    assert_eq!(pass.next_row(), Some(1));
    assert!(pass.step(&mut in_col, &mut in_row, 1, Some(0), true));
    assert_eq!(in_col, vec![usize::MAX, 1, 2]);
    assert_eq!(pass.next_row(), Some(0));
    assert!(!pass.step(&mut in_col, &mut in_row, 0, None, false));
    assert_eq!(in_col, vec![0, 1, 2]);
    assert_eq!(in_row, vec![0, 1, 2]);
    assert_eq!(pass.next_row(), None);
    assert!(pass.finish().is_empty());
}

#[test]
fn row_reduction_sets_aside_the_displaced_row() {
    let mut in_col = vec![usize::MAX, 0, 2];
    let mut in_row = vec![1, 0, 2];
    let mut pass = RowReduction::new(vec![1], 3);
    assert!(!pass.step(&mut in_col, &mut in_row, 1, None, false));
    assert_eq!(in_col, vec![usize::MAX, 1, 2]);
    assert_eq!(in_row, vec![1, 1, 2]);
    assert_eq!(pass.next_row(), None);
    assert_eq!(pass.finish(), vec![0]);
}

use procrustes::assignment::promote_column;

#[test]
fn promote_column_swaps_into_the_front_segment() {
    let mut collist = vec![0, 1, 2, 3];
    assert_eq!(promote_column(&mut collist, 3, 1), 2);
    assert_eq!(collist, vec![0, 3, 2, 1]);
    assert_eq!(promote_column(&mut collist, 2, 2), 3);
    assert_eq!(collist, vec![0, 3, 2, 1]);
}

use procrustes::assignment::{jv_next_phase, JvPhase, ROW_REDUCTION_PASSES};

#[test]
fn phase_order_two_row_passes_then_augmentation() {
    assert_eq!(ROW_REDUCTION_PASSES, 2);
    assert_eq!(jv_next_phase(0, true), JvPhase::RowReduction);
    assert_eq!(jv_next_phase(1, true), JvPhase::RowReduction);
    assert_eq!(jv_next_phase(2, true), JvPhase::Augmentation);
    assert_eq!(jv_next_phase(0, false), JvPhase::Done);
    assert_eq!(jv_next_phase(1, false), JvPhase::Done);
    assert_eq!(jv_next_phase(2, false), JvPhase::Done);
}

fn matched(in_col: &[usize]) -> usize {
    in_col.iter().filter(|&&r| r != usize::MAX).count()
}

#[test]
fn augmenting_every_free_row_ends_in_a_permutation() {
    // Columns 0 and 1 both went to row 0; rows 1 and 2 are free.
    let mut in_col = vec![usize::MAX, 0, usize::MAX];
    let mut in_row = vec![1, 0, 0];
    let free = vec![1, 2];
    // Row 1 reaches the unmatched column 0 directly.
    let pred = vec![1, 1, 1];
    assert!(augment_path(&mut in_col, &mut in_row, &pred, free[0], 0));
    assert_eq!(in_col, vec![1, 0, usize::MAX]);
    // Row 2 reaches the unmatched column 2 directly.
    let pred = vec![2, 2, 2];
    assert!(augment_path(&mut in_col, &mut in_row, &pred, free[1], 2));
    assert_eq!(in_col, vec![1, 0, 2]);
    assert_eq!(in_row, vec![1, 0, 2]);
    let mut seen = in_col.clone();
    seen.sort();
    assert_eq!(seen, vec![0, 1, 2]);
    for j in 0..3 {
        assert_eq!(in_row[in_col[j]], j);
    }
}

#[test]
fn row_reduction_pass_never_lowers_the_matched_count() {
    let mut in_col = vec![usize::MAX, 0, usize::MAX, 3];
    let mut in_row = vec![1, 0, 0, 3];
    let mut pass = RowReduction::new(vec![1, 2], 4);
    let choices = [(1, Some(0), true), (1, Some(2), false), (0, None, false), (2, None, false)];
    let mut t = 0;
    let mut before = matched(&in_col);
    while let Some(_) = pass.next_row() {
        let (j1, j2, lowers) = choices[t];
        pass.step(&mut in_col, &mut in_row, j1, j2, lowers);
        let now = matched(&in_col);
        assert!(now >= before);
        before = now;
        t += 1;
    }
    let free = pass.finish();
    for r in 0..4 {
        assert_eq!(free.contains(&r), !in_col.contains(&r));
    }
    for j in 0..4 {
        if in_col[j] != usize::MAX {
            assert_eq!(in_row[in_col[j]], j);
        }
    }
}
