use procrustes::assignment::PathSearch;

#[test]
fn search_starts_with_identity_list_and_empty_segments() {
    let in_col = vec![0, usize::MAX, 1];
    let in_row = vec![0, 2, 0];
    let search = PathSearch::new(2, &in_col, &in_row);
    assert_eq!((0..3).map(|p| search.column(p)).collect::<Vec<_>>(), vec![0, 1, 2]);
    assert_eq!((search.lo(), search.hi(), search.n_ready()), (0, 0, 0));
    assert_eq!(search.found(), None);
}

#[test]
fn search_scans_then_ends_at_unmatched_column_and_augments() {
    // col 0 ↔ row 0, col 2 ↔ row 1; row 2 is free; column 1 is unmatched.
    let mut in_col = vec![0, usize::MAX, 1];
    let mut in_row = vec![0, 2, 0];
    let mut search = PathSearch::new(2, &in_col, &in_row);
    // Only column 0 is at the least distance; it is matched.
    assert_eq!(search.ready_segment(&in_col, &vec![false; 3], &vec![false; 3]), None);
    assert_eq!((search.lo(), search.hi(), search.n_ready()), (0, 1, 0));
    assert_eq!(search.next_scan(), Some(0));
    assert_eq!(search.lo(), 1);
    // Column 2 (matched) joins the ready segment.
    assert_eq!(search.relax(&in_col, 2, true, true), None);
    assert_eq!((0..3).map(|p| search.column(p)).collect::<Vec<_>>(), vec![0, 2, 1]);
    assert_eq!(search.hi(), 2);
    // Column 1 (unmatched) ends the search.
    assert_eq!(search.relax(&in_col, 2, true, true), Some(1));
    assert_eq!(search.found(), Some(1));
    search.augment(&mut in_col, &mut in_row);
    assert_eq!(in_col, vec![2, 0, 1]);
    assert_eq!(in_row, vec![1, 2, 0]);
}

#[test]
fn relax_without_decrease_changes_nothing() {
    let in_col = vec![0, usize::MAX, 1];
    let in_row = vec![0, 2, 0];
    let mut search = PathSearch::new(2, &in_col, &in_row);
    assert_eq!(search.ready_segment(&in_col, &vec![false; 3], &vec![false; 3]), None);
    assert_eq!(search.next_scan(), Some(0));
    assert_eq!(search.relax(&in_col, 1, false, true), None);
    assert_eq!(search.hi(), 1);
    assert_eq!(search.found(), None);
    assert_eq!(search.next_scan(), None);
}

#[test]
fn ready_segment_ends_at_last_unmatched_column() {
    let mut in_col = vec![usize::MAX, 0];
    let mut in_row = vec![1, 0];
    let mut search = PathSearch::new(1, &in_col, &in_row);
    assert_eq!(search.ready_segment(&in_col, &vec![false, true], &vec![false, false]), Some(0));
    assert_eq!(search.hi(), 2);
    search.augment(&mut in_col, &mut in_row);
    assert_eq!(in_col, vec![1, 0]);
    assert_eq!(in_row, vec![1, 0]);
}

#[test]
fn ready_segment_restarts_at_each_new_least_distance() {
    // Distances in list order 5, 4, 3, 3: the segment restarts at 4 and at
    // the first 3, and the second 3 joins it.
    let mut in_col = vec![1, 2, 3, usize::MAX];
    let mut in_row = vec![0, 0, 1, 2];
    let mut search = PathSearch::new(0, &in_col, &in_row);
    let le = vec![false, true, true, true];
    let lt = vec![false, true, true, false];
    assert_eq!(search.ready_segment(&in_col, &le, &lt), Some(3));
    assert_eq!((0..4).map(|p| search.column(p)).collect::<Vec<_>>(), vec![2, 3, 1, 0]);
    assert_eq!(search.hi(), 2);
    search.augment(&mut in_col, &mut in_row);
    assert_eq!(in_col, vec![1, 2, 3, 0]);
    assert_eq!(in_row, vec![3, 0, 1, 2]);
}

use procrustes::assignment::Augmentation;

#[test]
fn augmentation_phase_matches_every_free_row() {
    // Columns 0 and 1 both went to row 0 once; rows 1 and 2 are free.
    let mut in_col = vec![usize::MAX, 0, usize::MAX];
    let mut in_row = vec![1, 0, 0];
    let mut phase = Augmentation::new(vec![1, 2]);
    let mut ends = vec![];
    while let Some(row) = phase.next_row() {
        let mut search = PathSearch::new(row, &in_col, &in_row);
        // Every still-to-do column is at the least distance.
        let le = vec![true; 3];
        let lt = vec![false; 3];
        let found = search.ready_segment(&in_col, &le, &lt);
        ends.push(found);
        phase.augment(&search, &mut in_col, &mut in_row);
    }
    assert_eq!(ends, vec![Some(2), Some(0)]);
    assert_eq!(in_col, vec![2, 0, 1]);
    for j in 0..3 {
        assert_eq!(in_row[in_col[j]], j);
    }
}
