use procrustes::heap_stream::HeapEnumerator;

fn heap_permutations(k: usize) -> Vec<Vec<usize>> {
    let mut e = HeapEnumerator::new(k);
    let mut all = vec![e.current().clone()];
    while e.advance() {
        all.push(e.current().clone());
    }
    all
}

#[test]
fn advance_past_the_end_changes_nothing() {
    let mut e = HeapEnumerator::new(3);
    while e.advance() {}
    assert_eq!(e.current(), &vec![2, 1, 0]);
    assert!(!e.advance());
    assert_eq!(e.current(), &vec![2, 1, 0]);
}

#[test]
fn heap_order_for_three_columns() {
    let perms = heap_permutations(3);
    assert_eq!(
        perms,
        vec![vec![0, 1, 2], vec![1, 0, 2], vec![2, 0, 1], vec![0, 2, 1], vec![1, 2, 0], vec![2, 1, 0]]
    );
}

#[test]
fn heap_small_cases() {
    assert_eq!(heap_permutations(1), vec![vec![0]]);
    assert_eq!(heap_permutations(2), vec![vec![0, 1], vec![1, 0]]);
}

#[test]
fn heap_lists_every_permutation_once() {
    for k in 1..=6usize {
        let perms = heap_permutations(k);
        let expected: usize = (1..=k).product();
        assert_eq!(perms.len(), expected);
        let mut sorted = perms.clone();
        sorted.sort();
        sorted.dedup();
        assert_eq!(sorted.len(), expected, "duplicates at k={k}");
        for p in &perms {
            let mut q = p.clone();
            q.sort();
            assert_eq!(q, (0..k).collect::<Vec<_>>());
        }
        assert_eq!(perms[0], (0..k).collect::<Vec<_>>());
    }
}

#[test]
fn heap_last_arrangement_is_the_net_effect_of_a_pass() {
    // Odd K: first and last entries swapped.
    assert_eq!(heap_permutations(3).last().unwrap(), &vec![2, 1, 0]);
    assert_eq!(heap_permutations(5).last().unwrap(), &vec![4, 1, 2, 3, 0]);
    assert_eq!(heap_permutations(7).last().unwrap(), &vec![6, 1, 2, 3, 4, 5, 0]);
    // Even K >= 4: entries K-3, K-2, 1..K-4, K-1, 0.
    assert_eq!(heap_permutations(4).last().unwrap(), &vec![1, 2, 3, 0]);
    assert_eq!(heap_permutations(6).last().unwrap(), &vec![3, 4, 1, 2, 5, 0]);
    assert_eq!(heap_permutations(8).last().unwrap(), &vec![5, 6, 1, 2, 3, 4, 7, 0]);
    assert_eq!(heap_permutations(2).last().unwrap(), &vec![1, 0]);
}
