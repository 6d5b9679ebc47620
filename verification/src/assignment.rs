//! Integer bookkeeping of the signed-permutation assignment: which search
//! runs for a given number of columns, and the row/column matching that the
//! Jonker-Volgenant solver maintains.
//!
//! The matching is kept in two arrays over `0..k`: `in_col[j]` is the row
//! assigned to column `j` (`usize::MAX` when none) and `in_row[i]` is the
//! column assigned to row `i`.
//!
//! The Jonker-Volgenant solver is based on lapjv-rust v0.3.0 (MIT License,
//! Copyright (c) 2018-2021 Andrii Dmytrenko); the notice is in
//! `extras/LICENSE-THIRDPARTY`.
use vstd::prelude::*;
use vstd::relations::injective_on;
use vstd::set_lib::{lemma_int_range, lemma_map_size, lemma_subset_equality, set_int_range};

use crate::heap::{identity_perm, is_permutation, lemma_permutation_rearranges_identity, swap_at};
use crate::heap_laws::{lemma_rearranges_trans, lemma_swap_rearranges};
use crate::heap_laws::occurs_in;
pub use crate::path_search::{Augmentation, PathSearch};
use crate::path_search::set_entry;

verus! {

/// Largest number of columns for which the brute-force search runs.
pub const BRUTE_FORCE_CUTOFF: usize = 3;

/// The two exact searches for the best signed permutation.
#[derive(Debug, Clone, Copy, PartialEq, Eq, Structural)]
pub enum AssignmentMethod {
    /// Enumerate all `K!` permutations (Heap's order) and keep the first best.
    BruteForce,
    /// Jonker-Volgenant linear assignment on the cost `-|aᵀ·reference|`.
    JonkerVolgenant,
}

/// The search used for `k` columns: brute force up to the cutoff, the
/// linear-assignment solver beyond it.
pub fn assignment_method(k: usize) -> (m: AssignmentMethod)
    ensures
        m == (if k <= BRUTE_FORCE_CUTOFF {
            AssignmentMethod::BruteForce
        } else {
            AssignmentMethod::JonkerVolgenant
        }),
{
    if k <= BRUTE_FORCE_CUTOFF {
        AssignmentMethod::BruteForce
    } else {
        AssignmentMethod::JonkerVolgenant
    }
}

/// Some column of `col_min` chose row `i`.
pub open spec fn is_chosen(col_min: Seq<usize>, i: usize) -> bool {
    exists|j: int| 0 <= j < col_min.len() && col_min[j] == i
}

/// Column `j` is the last column that chose its row.
pub open spec fn is_last_choice(col_min: Seq<usize>, j: int) -> bool {
    &&& 0 <= j < col_min.len()
    &&& forall|j2: int| j < j2 < col_min.len() ==> col_min[j2] != col_min[j]
}

/// Exactly one column chose row `i`.
pub open spec fn is_sole_choice(col_min: Seq<usize>, i: usize) -> bool {
    &&& is_chosen(col_min, i)
    &&& forall|j1: int, j2: int|
        0 <= j1 < col_min.len() && 0 <= j2 < col_min.len() && col_min[j1] == i && col_min[j2] == i
            ==> j1 == j2
}

/// The rows of `0..k` that no column chose, in increasing order.
pub open spec fn unchosen_rows(col_min: Seq<usize>, k: nat) -> Seq<usize>
    decreases k,
{
    if k == 0 {
        Seq::empty()
    } else {
        let r = (k - 1) as usize;
        if is_chosen(col_min, r) {
            unchosen_rows(col_min, (k - 1) as nat)
        } else {
            unchosen_rows(col_min, (k - 1) as nat).push(r)
        }
    }
}

/// `in_col` and `in_row` describe a partial matching: every matched column
/// points at a row that points back at it.
pub open spec fn is_consistent_matching(in_col: Seq<usize>, in_row: Seq<usize>) -> bool {
    forall|j: int|
        0 <= j < in_col.len() && in_col[j] != usize::MAX ==> {
            &&& (#[trigger] in_col[j]) < in_row.len()
            &&& in_row[in_col[j] as int] == j
        }
}

/// Turns the per-column cost minima into an initial matching (the
/// column-reduction step of Jonker-Volgenant).
///
/// On entry `in_col[j]` is the row of minimum cost in column `j`. Each row
/// chosen by several columns keeps only the last of them: that column stays
/// matched and the row records it in `in_row`; the other columns become
/// unmatched (`usize::MAX`). Rows no column chose keep their `in_row` entry
/// and are returned, in increasing order, as the free rows. The second
/// result tells, per row, whether exactly one column chose it.
pub fn claim_rows(in_col: &mut Vec<usize>, in_row: &mut Vec<usize>) -> (res: (Vec<usize>, Vec<bool>))
    requires
        old(in_col)@.len() == old(in_row)@.len(),
        old(in_col)@.len() < usize::MAX,
        forall|j: int| 0 <= j < old(in_col)@.len() ==> #[trigger] old(in_col)@[j] < old(in_col)@.len(),
    ensures
        final(in_col)@.len() == old(in_col)@.len(),
        final(in_row)@.len() == old(in_row)@.len(),
        forall|j: int|
            0 <= j < old(in_col)@.len() ==> #[trigger] final(in_col)@[j] == if is_last_choice(
                old(in_col)@,
                j,
            ) {
                old(in_col)@[j]
            } else {
                usize::MAX
            },
        forall|i: int|
            0 <= i < old(in_row)@.len() && !is_chosen(old(in_col)@, i as usize)
                ==> #[trigger] final(in_row)@[i] == old(in_row)@[i],
        forall|j: int|
            is_last_choice(old(in_col)@, j) ==> #[trigger] final(in_row)@[old(in_col)@[j] as int]
                == j,
        is_consistent_matching(final(in_col)@, final(in_row)@),
        res.0@ == unchosen_rows(old(in_col)@, old(in_col)@.len() as nat),
        free_rows_exact(final(in_col)@, res.0@, old(in_col)@.len() as nat),
        res.1@.len() == old(in_col)@.len(),
        forall|i: int|
            0 <= i < res.1@.len() ==> #[trigger] res.1@[i] == is_sole_choice(old(in_col)@, i as usize),
{
    let ghost col_min = in_col@;
    let k = in_col.len();
    let mut taken: Vec<bool> = Vec::with_capacity(k);
    let mut single: Vec<bool> = Vec::with_capacity(k);
    let mut t: usize = 0;
    while t < k
        invariant
            0 <= t <= k,
            taken@.len() == t,
            single@.len() == t,
            forall|i: int| 0 <= i < t ==> !#[trigger] taken@[i],
            forall|i: int| 0 <= i < t ==> #[trigger] single@[i],
        decreases k - t,
    {
        taken.push(false);
        single.push(true);
        t = t + 1;
    }
    // Columns from the last to the first: the first visit of a row matches it.
    let mut j: usize = k;
    while j > 0
        invariant
            0 <= j <= k,
            k == col_min.len(),
            in_col@.len() == k,
            in_row@.len() == k,
            taken@.len() == k,
            single@.len() == k,
            forall|c: int| 0 <= c < k ==> #[trigger] col_min[c] < k,
            forall|c: int| 0 <= c < j ==> #[trigger] in_col@[c] == col_min[c],
            forall|c: int|
                j <= c < k ==> #[trigger] in_col@[c] == if is_last_choice(col_min, c) {
                    col_min[c]
                } else {
                    usize::MAX
                },
            forall|i: int|
                0 <= i < k ==> (#[trigger] taken@[i] <==> exists|c: int|
                    j <= c < k && col_min[c] == i),
            forall|i: int| 0 <= i < k && !taken@[i] ==> #[trigger] in_row@[i] == old(in_row)@[i],
            forall|c: int|
                j <= c < k && is_last_choice(col_min, c) ==> #[trigger] in_row@[col_min[c] as int]
                    == c,
            forall|i: int|
                0 <= i < k ==> (#[trigger] single@[i] <==> forall|c1: int, c2: int|
                    j <= c1 < k && j <= c2 < k && col_min[c1] == i && col_min[c2] == i ==> c1
                        == c2),
        decreases j,
    {
        j = j - 1;
        let i = in_col[j];
        if !taken[i] {
            assert(is_last_choice(col_min, j as int));
            in_row.set(i, j);
            taken.set(i, true);
        } else {
            assert(!is_last_choice(col_min, j as int));
            single.set(i, false);
            in_col.set(j, usize::MAX);
        }
    }
    let mut free_rows: Vec<usize> = Vec::new();
    let mut sole: Vec<bool> = Vec::with_capacity(k);
    let mut r: usize = 0;
    while r < k
        invariant
            0 <= r <= k,
            k == col_min.len(),
            taken@.len() == k,
            single@.len() == k,
            forall|i: int| 0 <= i < k ==> (#[trigger] taken@[i] <==> is_chosen(col_min, i as usize)),
            forall|i: int|
                0 <= i < k ==> (#[trigger] single@[i] <==> forall|c1: int, c2: int|
                    0 <= c1 < k && 0 <= c2 < k && col_min[c1] == i && col_min[c2] == i ==> c1
                        == c2),
            free_rows@ == unchosen_rows(col_min, r as nat),
            sole@.len() == r,
            forall|i: int| 0 <= i < r ==> #[trigger] sole@[i] == is_sole_choice(col_min, i as usize),
        decreases k - r,
    {
        if !taken[r] {
            free_rows.push(r);
        }
        sole.push(taken[r] && single[r]);
        r = r + 1;
    }
    proof {
        lemma_unchosen_rows(col_min, k as nat);
        assert forall|r: usize| r < k implies (#[trigger] is_matched(in_col@, r) <==> !free_rows@.contains(r)) by {
            if is_matched(in_col@, r) {
                let j = choose|j: int| 0 <= j < in_col@.len() && in_col@[j] == r;
                assert(is_last_choice(col_min, j));
                assert(is_chosen(col_min, r));
            }
            if is_chosen(col_min, r) {
                let j = choose|j: int| 0 <= j < col_min.len() && col_min[j] == r;
                let jl = lemma_last_choice_exists(col_min, j);
                assert(in_col@[jl] == r);
            }
        }
    }
    proof {
        assert forall|c: int|
            0 <= c < in_col@.len() && in_col@[c] != usize::MAX implies {
            &&& (#[trigger] in_col@[c]) < in_row@.len()
            &&& in_row@[in_col@[c] as int] == c
        } by {
            assert(is_last_choice(col_min, c));
        }
    }
    (free_rows, sole)
}


/// The matching after flipping the alternating path that ends at column
/// `j`, with at most `fuel` steps: column `j` takes the row `i = pred[j]`
/// it was reached from, row `i` takes column `j`, and the flip goes on from
/// the column `i` held before, until the free row `free_row` is reached.
/// `None` when the free row is not reached within `fuel` steps.
pub open spec fn augment_run(
    in_col: Seq<usize>,
    in_row: Seq<usize>,
    pred: Seq<usize>,
    free_row: usize,
    j: int,
    fuel: nat,
) -> Option<(Seq<usize>, Seq<usize>)>
    decreases fuel,
{
    if fuel == 0 {
        None
    } else {
        let i = pred[j];
        let next_j = in_row[i as int];
        let c2 = in_col.update(j, i);
        let r2 = in_row.update(i as int, j as usize);
        if i == free_row {
            Some((c2, r2))
        } else {
            augment_run(c2, r2, pred, free_row, next_j as int, (fuel - 1) as nat)
        }
    }
}

/// Flips the alternating path found by the shortest-path search of
/// Jonker-Volgenant, from column `end_col` back to the free row `free_row`
/// (the augmentation step). On a square problem the path reaches
/// `free_row` within `k` steps, `k` being the number of columns; the
/// result tells whether it did, and only then is the new matching the one
/// `augment_run` describes.
pub fn augment_path(
    in_col: &mut Vec<usize>,
    in_row: &mut Vec<usize>,
    pred: &Vec<usize>,
    free_row: usize,
    end_col: usize,
) -> (reached: bool)
    requires
        old(in_col)@.len() == old(in_row)@.len(),
        pred@.len() == old(in_col)@.len(),
        end_col < old(in_col)@.len(),
        forall|c: int| 0 <= c < pred@.len() ==> #[trigger] pred@[c] < pred@.len(),
        forall|r: int| 0 <= r < old(in_row)@.len() ==> #[trigger] old(in_row)@[r] < old(in_row)@.len(),
    ensures
        final(in_col)@.len() == old(in_col)@.len(),
        final(in_row)@.len() == old(in_row)@.len(),
        reached == augment_run(
            old(in_col)@,
            old(in_row)@,
            pred@,
            free_row,
            end_col as int,
            old(in_col)@.len() as nat,
        ) is Some,
        reached ==> (final(in_col)@, final(in_row)@) == augment_run(
            old(in_col)@,
            old(in_row)@,
            pred@,
            free_row,
            end_col as int,
            old(in_col)@.len() as nat,
        )->0,
        (is_consistent_matching(old(in_col)@, old(in_row)@) && (forall|j: int|
            0 <= j < old(in_col)@.len() ==> #[trigger] old(in_col)@[j] != free_row) && exists|len: nat|
            is_augmenting_path(old(in_col)@, old(in_row)@, pred@, free_row, end_col as int, len)) ==> {
            &&& reached
            &&& is_consistent_matching(final(in_col)@, final(in_row)@)
            &&& is_matched(final(in_col)@, free_row)
            &&& forall|r: usize|
                r < old(in_col)@.len() ==> (#[trigger] is_matched(final(in_col)@, r) <==> (
                is_matched(old(in_col)@, r) || r == free_row))
        },
{
    let ghost col0 = in_col@;
    let ghost row0 = in_row@;
    let k = in_col.len();
    let ghost target = augment_run(in_col@, in_row@, pred@, free_row, end_col as int, k as nat);
    let mut j = end_col;
    let mut steps: usize = 0;
    let mut reached_now = false;
    if k == 0 {
        return false;
    }
    loop
        invariant_except_break
            steps < k,
            j < k,
            in_col@.len() == k,
            in_row@.len() == k,
            pred@.len() == k,
            forall|c: int| 0 <= c < k ==> #[trigger] pred@[c] < k,
            forall|r: int| 0 <= r < k ==> #[trigger] in_row@[r] < k,
            augment_run(in_col@, in_row@, pred@, free_row, j as int, (k - steps) as nat) == target,
        ensures
            in_col@.len() == k,
            in_row@.len() == k,
            target is Some ==> (in_col@, in_row@) == target->0,
            reached_now == target is Some,
        decreases k - steps,
    {
        let i = pred[j];
        let next_j = in_row[i];
        let ghost c1 = in_col@.update(j as int, i);
        let ghost r1 = in_row@.update(i as int, j);
        assert(augment_run(in_col@, in_row@, pred@, free_row, j as int, (k - steps) as nat) == if i
            == free_row {
            Some((c1, r1))
        } else {
            augment_run(c1, r1, pred@, free_row, next_j as int, (k - steps - 1) as nat)
        });
        in_col.set(j, i);
        in_row.set(i, j);
        if i == free_row {
            reached_now = true;
            break;
        }
        if steps + 1 == k {
            assert(augment_run(c1, r1, pred@, free_row, next_j as int, 0) is None);
            reached_now = false;
            break;
        }
        j = next_j;
        steps = steps + 1;
    }
    proof {
        if is_consistent_matching(col0, row0) && (forall|c: int|
            0 <= c < col0.len() ==> #[trigger] col0[c] != free_row) && exists|len: nat|
            is_augmenting_path(col0, row0, pred@, free_row, end_col as int, len) {
            let len = choose|len: nat| is_augmenting_path(col0, row0, pred@, free_row, end_col as int, len);
            lemma_augment_keeps_matching(col0, row0, pred@, free_row, end_col as int, len);
            let c2 = flipped_cols(col0, row0, pred@, end_col as int, len);
            let r2 = flipped_rows(col0, row0, pred@, end_col as int, len);
            assert(target == Some((c2, r2)));
            assert(reached_now);
            assert(in_col@ == c2);
            assert(in_row@ == r2);
            let j = choose|j: int| 0 <= j < col0.len() && #[trigger] c2[j] == free_row;
            assert(in_col@[j] == free_row);
            assert(is_matched(in_col@, free_row));
            assert forall|r: usize| r < col0.len() implies (#[trigger] is_matched(in_col@, r) <==> (
            is_matched(col0, r) || r == free_row)) by {
                assert(is_matched(c2, r) <==> (is_matched(col0, r) || r == free_row));
            }
        }
    }
    reached_now
}


/// The `t`-th column of the alternating path from column `end`: from a
/// column the path goes to the row it was reached from (`pred`), and on to
/// the column that row holds.
pub open spec fn path_col(in_row: Seq<usize>, pred: Seq<usize>, end: int, t: nat) -> int
    decreases t,
{
    if t == 0 {
        end
    } else {
        in_row[pred[path_col(in_row, pred, end, (t - 1) as nat)] as int] as int
    }
}

/// The `t`-th row of the alternating path from column `end`.
pub open spec fn path_row(in_row: Seq<usize>, pred: Seq<usize>, end: int, t: nat) -> usize {
    pred[path_col(in_row, pred, end, t)]
}

/// The path from column `end` is an augmenting path of `len` steps: it
/// starts at an unmatched column, each further column is the one matched to
/// the row before it, it visits no row and no column twice, and it ends at
/// `free_row`.
pub open spec fn is_augmenting_path(
    in_col: Seq<usize>,
    in_row: Seq<usize>,
    pred: Seq<usize>,
    free_row: usize,
    end: int,
    len: nat,
) -> bool {
    &&& 1 <= len <= in_col.len()
    &&& in_col[end] == usize::MAX
    &&& path_row(in_row, pred, end, (len - 1) as nat) == free_row
    &&& forall|t: nat|
        t + 1 < len ==> in_col[path_col(in_row, pred, end, t + 1)] == #[trigger] path_row(
            in_row,
            pred,
            end,
            t,
        )
    &&& forall|s: nat, t: nat|
        s < t < len ==> #[trigger] path_row(in_row, pred, end, s) != #[trigger] path_row(
            in_row,
            pred,
            end,
            t,
        )
    &&& forall|s: nat, t: nat|
        s < t < len ==> #[trigger] path_col(in_row, pred, end, s) != #[trigger] path_col(
            in_row,
            pred,
            end,
            t,
        )
}

/// `in_col` after the first `t` steps of the flip along the path.
pub open spec fn flipped_cols(
    in_col: Seq<usize>,
    in_row: Seq<usize>,
    pred: Seq<usize>,
    end: int,
    t: nat,
) -> Seq<usize>
    decreases t,
{
    if t == 0 {
        in_col
    } else {
        let s = (t - 1) as nat;
        flipped_cols(in_col, in_row, pred, end, s).update(
            path_col(in_row, pred, end, s),
            path_row(in_row, pred, end, s),
        )
    }
}

/// `in_row` after the first `t` steps of the flip along the path.
pub open spec fn flipped_rows(
    in_col: Seq<usize>,
    in_row: Seq<usize>,
    pred: Seq<usize>,
    end: int,
    t: nat,
) -> Seq<usize>
    decreases t,
{
    if t == 0 {
        in_row
    } else {
        let s = (t - 1) as nat;
        flipped_rows(in_col, in_row, pred, end, s).update(
            path_row(in_row, pred, end, s) as int,
            path_col(in_row, pred, end, s) as usize,
        )
    }
}

proof fn lemma_path_in_range(in_row: Seq<usize>, pred: Seq<usize>, end: int, t: nat)
    requires
        in_row.len() == pred.len(),
        0 <= end < pred.len(),
        forall|c: int| 0 <= c < pred.len() ==> #[trigger] pred[c] < pred.len(),
        forall|r: int| 0 <= r < in_row.len() ==> #[trigger] in_row[r] < in_row.len(),
    ensures
        0 <= path_col(in_row, pred, end, t) < pred.len(),
        path_row(in_row, pred, end, t) < pred.len(),
    decreases t,
{
    if t > 0 {
        lemma_path_in_range(in_row, pred, end, (t - 1) as nat);
        let c = path_col(in_row, pred, end, (t - 1) as nat);
        assert(pred[c] < pred.len());
        assert(in_row[pred[c] as int] < in_row.len());
    }
    let c = path_col(in_row, pred, end, t);
    assert(pred[c] < pred.len());
}

/// What the first `t` flip steps leave: the path's columns and rows point
/// at each other, everything else is as it was.
proof fn lemma_flipped(
    in_col: Seq<usize>,
    in_row: Seq<usize>,
    pred: Seq<usize>,
    free_row: usize,
    end: int,
    len: nat,
    t: nat,
)
    requires
        in_col.len() == in_row.len() == pred.len(),
        pred.len() <= usize::MAX,
        0 <= end < pred.len(),
        forall|c: int| 0 <= c < pred.len() ==> #[trigger] pred[c] < pred.len(),
        forall|r: int| 0 <= r < in_row.len() ==> #[trigger] in_row[r] < in_row.len(),
        is_augmenting_path(in_col, in_row, pred, free_row, end, len),
        t <= len,
    ensures
        flipped_cols(in_col, in_row, pred, end, t).len() == in_col.len(),
        flipped_rows(in_col, in_row, pred, end, t).len() == in_row.len(),
        forall|s: nat|
            s < t ==> flipped_cols(in_col, in_row, pred, end, t)[path_col(in_row, pred, end, s)]
                == #[trigger] path_row(in_row, pred, end, s),
        forall|s: nat|
            s < t ==> flipped_rows(in_col, in_row, pred, end, t)[#[trigger] path_row(
                in_row,
                pred,
                end,
                s,
            ) as int] == path_col(in_row, pred, end, s),
        forall|j: int|
            0 <= j < in_col.len() && (forall|s: nat| s < t ==> #[trigger] path_col(in_row, pred, end, s) != j)
                ==> #[trigger] flipped_cols(in_col, in_row, pred, end, t)[j] == in_col[j],
        forall|r: int|
            0 <= r < in_row.len() && (forall|s: nat| s < t ==> #[trigger] path_row(in_row, pred, end, s) != r)
                ==> #[trigger] flipped_rows(in_col, in_row, pred, end, t)[r] == in_row[r],
    decreases t,
{
    if t > 0 {
        let u = (t - 1) as nat;
        lemma_flipped(in_col, in_row, pred, free_row, end, len, u);
        lemma_path_in_range(in_row, pred, end, u);
        let cu = path_col(in_row, pred, end, u);
        let ru = path_row(in_row, pred, end, u);
        assert forall|s: nat| s < t implies flipped_cols(in_col, in_row, pred, end, t)[path_col(
            in_row,
            pred,
            end,
            s,
        )] == #[trigger] path_row(in_row, pred, end, s) by {
            lemma_path_in_range(in_row, pred, end, s);
            if s < u {
                assert(path_col(in_row, pred, end, s) != cu);
                assert(flipped_cols(in_col, in_row, pred, end, u)[path_col(in_row, pred, end, s)]
                    == path_row(in_row, pred, end, s));
            }
        }
        assert forall|s: nat| s < t implies flipped_rows(in_col, in_row, pred, end, t)[
            #[trigger] path_row(in_row, pred, end, s) as int] == path_col(in_row, pred, end, s) by {
            lemma_path_in_range(in_row, pred, end, s);
            if s < u {
                assert(path_row(in_row, pred, end, s) != ru);
                assert(flipped_rows(in_col, in_row, pred, end, u)[path_row(in_row, pred, end, s) as int]
                    == path_col(in_row, pred, end, s));
            }
        }
        assert forall|j: int|
            0 <= j < in_col.len() && (forall|s: nat| s < t ==> #[trigger] path_col(in_row, pred, end, s) != j)
                implies #[trigger] flipped_cols(in_col, in_row, pred, end, t)[j] == in_col[j] by {
            assert(path_col(in_row, pred, end, u) != j);
        }
        assert forall|r: int|
            0 <= r < in_row.len() && (forall|s: nat| s < t ==> #[trigger] path_row(in_row, pred, end, s) != r)
                implies #[trigger] flipped_rows(in_col, in_row, pred, end, t)[r] == in_row[r] by {
            assert(path_row(in_row, pred, end, u) != r);
        }
    }
}

/// From step `t` on, the flip that `augment_run` performs ends in the
/// fully flipped matching.
proof fn lemma_run_flips(
    in_col: Seq<usize>,
    in_row: Seq<usize>,
    pred: Seq<usize>,
    free_row: usize,
    end: int,
    len: nat,
    t: nat,
    fuel: nat,
)
    requires
        in_col.len() == in_row.len() == pred.len(),
        pred.len() <= usize::MAX,
        0 <= end < pred.len(),
        forall|c: int| 0 <= c < pred.len() ==> #[trigger] pred[c] < pred.len(),
        forall|r: int| 0 <= r < in_row.len() ==> #[trigger] in_row[r] < in_row.len(),
        is_augmenting_path(in_col, in_row, pred, free_row, end, len),
        t < len,
        fuel >= len - t,
    ensures
        augment_run(
            flipped_cols(in_col, in_row, pred, end, t),
            flipped_rows(in_col, in_row, pred, end, t),
            pred,
            free_row,
            path_col(in_row, pred, end, t),
            fuel,
        ) == Some(
            (flipped_cols(in_col, in_row, pred, end, len), flipped_rows(in_col, in_row, pred, end, len)),
        ),
    decreases len - t,
{
    let c = path_col(in_row, pred, end, t);
    let i = path_row(in_row, pred, end, t);
    lemma_flipped(in_col, in_row, pred, free_row, end, len, t);
    lemma_path_in_range(in_row, pred, end, t);
    let rows_t = flipped_rows(in_col, in_row, pred, end, t);
    // Row `i` is untouched so far: rows along the path are distinct.
    assert forall|s: nat| s < t implies #[trigger] path_row(in_row, pred, end, s) != i as int by {
        assert(path_row(in_row, pred, end, s) != path_row(in_row, pred, end, t));
    }
    assert(rows_t[i as int] == in_row[i as int]);
    assert(flipped_cols(in_col, in_row, pred, end, t + 1) == flipped_cols(
        in_col,
        in_row,
        pred,
        end,
        t,
    ).update(c, i));
    assert(flipped_rows(in_col, in_row, pred, end, t + 1) == rows_t.update(i as int, c as usize));
    if i == free_row {
        if t + 1 < len {
            assert(path_row(in_row, pred, end, t) != path_row(in_row, pred, end, (len - 1) as nat));
        }
        assert(t + 1 == len);
    } else {
        assert(t + 1 < len);
        assert(path_col(in_row, pred, end, t + 1) == in_row[i as int] as int);
        lemma_run_flips(in_col, in_row, pred, free_row, end, len, t + 1, (fuel - 1) as nat);
    }
}

/// Augmenting along an augmenting path keeps the matching consistent: the
/// flip reaches the free row within the `k` steps `augment_path` allows,
/// afterwards every column on the path is matched to the row it was reached
/// from and back, the free row is matched, and the rest of the matching is
/// unchanged.
pub proof fn lemma_augment_keeps_matching(
    in_col: Seq<usize>,
    in_row: Seq<usize>,
    pred: Seq<usize>,
    free_row: usize,
    end: int,
    len: nat,
)
    requires
        in_col.len() == in_row.len() == pred.len(),
        pred.len() <= usize::MAX,
        0 <= end < pred.len(),
        forall|c: int| 0 <= c < pred.len() ==> #[trigger] pred[c] < pred.len(),
        forall|r: int| 0 <= r < in_row.len() ==> #[trigger] in_row[r] < in_row.len(),
        is_consistent_matching(in_col, in_row),
        forall|j: int| 0 <= j < in_col.len() ==> #[trigger] in_col[j] != free_row,
        is_augmenting_path(in_col, in_row, pred, free_row, end, len),
    ensures
        augment_run(in_col, in_row, pred, free_row, end, in_col.len() as nat) == Some(
            (flipped_cols(in_col, in_row, pred, end, len), flipped_rows(in_col, in_row, pred, end, len)),
        ),
        is_consistent_matching(
            flipped_cols(in_col, in_row, pred, end, len),
            flipped_rows(in_col, in_row, pred, end, len),
        ),
        forall|t: nat|
            t < len ==> flipped_cols(in_col, in_row, pred, end, len)[path_col(in_row, pred, end, t)]
                == #[trigger] path_row(in_row, pred, end, t),
        exists|j: int|
            0 <= j < in_col.len() && #[trigger] flipped_cols(in_col, in_row, pred, end, len)[j]
                == free_row,
        forall|j: int|
            0 <= j < in_col.len() && (forall|t: nat|
                t < len ==> #[trigger] path_col(in_row, pred, end, t) != j) ==> #[trigger] flipped_cols(
                in_col,
                in_row,
                pred,
                end,
                len,
            )[j] == in_col[j],
        forall|r: usize|
            r < in_col.len() ==> (#[trigger] is_matched(
                flipped_cols(in_col, in_row, pred, end, len),
                r,
            ) <==> (is_matched(in_col, r) || r == free_row)),
{
    let k = in_col.len();
    lemma_run_flips(in_col, in_row, pred, free_row, end, len, 0, k as nat);
    lemma_flipped(in_col, in_row, pred, free_row, end, len, len);
    let c2 = flipped_cols(in_col, in_row, pred, end, len);
    let r2 = flipped_rows(in_col, in_row, pred, end, len);
    let last = (len - 1) as nat;
    lemma_path_in_range(in_row, pred, end, last);
    assert(c2[path_col(in_row, pred, end, last)] == path_row(in_row, pred, end, last));
    assert forall|j: int| 0 <= j < c2.len() && c2[j] != usize::MAX implies {
        &&& (#[trigger] c2[j]) < r2.len()
        &&& r2[c2[j] as int] == j
    } by {
        if exists|s: nat| s < len && #[trigger] path_col(in_row, pred, end, s) == j {
            let s = choose|s: nat| s < len && #[trigger] path_col(in_row, pred, end, s) == j;
            lemma_path_in_range(in_row, pred, end, s);
            assert(c2[j] == path_row(in_row, pred, end, s));
        } else {
            assert(c2[j] == in_col[j]);
            let r = in_col[j];
            assert(in_row[r as int] == j);
            if exists|s: nat| s < len && #[trigger] path_row(in_row, pred, end, s) == r {
                let s = choose|s: nat| s < len && #[trigger] path_row(in_row, pred, end, s) == r;
                if s + 1 < len {
                    let c1 = path_col(in_row, pred, end, s + 1);
                    lemma_path_in_range(in_row, pred, end, s + 1);
                    assert(in_col[c1] == r);
                    assert(in_row[r as int] == c1);
                } else {
                    assert(r == free_row);
                }
            }
            assert(r2[r as int] == in_row[r as int]);
        }
    }
    assert forall|r: usize| r < in_col.len() && is_matched(c2, r) implies (is_matched(in_col, r) || r
        == free_row) by {
        let j = choose|j: int| 0 <= j < c2.len() && c2[j] == r;
        if exists|s: nat| s < len && #[trigger] path_col(in_row, pred, end, s) == j {
            let s = choose|s: nat| s < len && #[trigger] path_col(in_row, pred, end, s) == j;
            lemma_path_in_range(in_row, pred, end, s);
            assert(c2[j] == path_row(in_row, pred, end, s));
            if s + 1 < len {
                lemma_path_in_range(in_row, pred, end, s + 1);
                assert(in_col[path_col(in_row, pred, end, s + 1)] == path_row(in_row, pred, end, s));
            }
        } else {
            assert(c2[j] == in_col[j]);
        }
    }
    assert(is_matched(c2, free_row));
    assert forall|r: usize| r < in_col.len() && is_matched(in_col, r) implies #[trigger] is_matched(
        c2,
        r,
    ) by {
        let j = choose|j: int| 0 <= j < in_col.len() && in_col[j] == r;
        if exists|s: nat| s < len && #[trigger] path_col(in_row, pred, end, s) == j {
            let s = choose|s: nat| s < len && #[trigger] path_col(in_row, pred, end, s) == j;
            if s == 0 {
                assert(in_col[end] == usize::MAX);
            } else {
                let u = (s - 1) as nat;
                assert(in_col[path_col(in_row, pred, end, u + 1)] == path_row(in_row, pred, end, u));
                lemma_path_in_range(in_row, pred, end, u);
                assert(c2[path_col(in_row, pred, end, u)] == path_row(in_row, pred, end, u));
            }
        } else {
            assert(c2[j] == in_col[j]);
        }
    }
}

/// Row `r` is matched: some column points at it.
pub open spec fn is_matched(in_col: Seq<usize>, r: usize) -> bool {
    exists|j: int| 0 <= j < in_col.len() && in_col[j] == r
}

/// A consistent matching in which every row of `0..k` is matched assigns
/// every column a row, and no row twice: `in_col` is a permutation of
/// `0..k`.
pub proof fn lemma_full_matching_is_permutation(in_col: Seq<usize>, in_row: Seq<usize>)
    requires
        in_col.len() == in_row.len(),
        in_col.len() <= usize::MAX,
        is_consistent_matching(in_col, in_row),
        forall|r: usize| r < in_col.len() ==> #[trigger] is_matched(in_col, r),
    ensures
        is_permutation(in_col, in_col.len() as nat),
{
    let k = in_col.len();
    // Each row names its column, and distinct rows name distinct columns.
    assert forall|r: int| 0 <= r < k implies 0 <= #[trigger] in_row[r] < k && in_col[in_row[r] as int]
        == r by {
        assert(is_matched(in_col, r as usize));
        let j = choose|j: int| 0 <= j < k && in_col[j] == r as usize;
        assert(in_row[in_col[j] as int] == j);
    }
    let rows = set_int_range(0, k as int);
    let cols = set_int_range(0, k as int);
    let f = |r: int| in_row[r] as int;
    lemma_int_range(0, k as int);
    assert(injective_on(f, rows)) by {
        assert forall|x: int, y: int| rows.contains(x) && rows.contains(y) && #[trigger] f(x) == #[trigger] f(
            y,
        ) implies x == y by {
            assert(in_col[in_row[x] as int] == x);
            assert(in_col[in_row[y] as int] == y);
        }
    }
    let image = rows.map(f);
    lemma_map_size(rows, image, f);
    assert(image.subset_of(cols)) by {
        assert forall|c: int| image.contains(c) implies cols.contains(c) by {
            let r = choose|r: int| rows.contains(r) && f(r) == c;
        }
    }
    lemma_subset_equality(image, cols);
    assert forall|j: int| 0 <= j < k implies #[trigger] in_col[j] < k by {
        assert(cols.contains(j));
        assert(image.contains(j));
        let r = choose|r: int| rows.contains(r) && f(r) == j;
        assert(in_col[in_row[r] as int] == r);
    }
    assert forall|i: int, j: int| 0 <= i < k && 0 <= j < k && i != j implies in_col[i] != in_col[j] by {
        assert(in_row[in_col[i] as int] == i);
        assert(in_row[in_col[j] as int] == j);
    }
    assert forall|v: usize| v < k implies #[trigger] occurs_in(v, in_col, k as nat) by {
        assert(is_matched(in_col, v));
        let j = choose|j: int| 0 <= j < k && in_col[j] == v;
        assert(in_col[j] == v);
    }
}


/// The free rows `free` are exactly the unmatched rows of `0..k`, each
/// listed once.
pub open spec fn free_rows_exact(in_col: Seq<usize>, free: Seq<usize>, k: nat) -> bool {
    &&& forall|t: int| 0 <= t < free.len() ==> #[trigger] free[t] < k
    &&& forall|s: int, t: int| 0 <= s < t < free.len() ==> free[s] != free[t]
    &&& forall|r: usize| r < k ==> (#[trigger] is_matched(in_col, r) <==> !free.contains(r))
}

/// The unchosen rows below `n`, in increasing order, are exactly the rows
/// below `n` that no column chose.
proof fn lemma_unchosen_rows(col_min: Seq<usize>, n: nat)
    requires
        n <= usize::MAX + 1,
    ensures
        forall|t: int|
            0 <= t < unchosen_rows(col_min, n).len() ==> #[trigger] unchosen_rows(col_min, n)[t] < n,
        forall|s: int, t: int|
            0 <= s < t < unchosen_rows(col_min, n).len() ==> unchosen_rows(col_min, n)[s]
                < unchosen_rows(col_min, n)[t],
        forall|r: usize|
            r < n ==> (#[trigger] unchosen_rows(col_min, n).contains(r) <==> !is_chosen(col_min, r)),
    decreases n,
{
    if n > 0 {
        let m = (n - 1) as nat;
        lemma_unchosen_rows(col_min, m);
        let prev = unchosen_rows(col_min, m);
        let r0 = m as usize;
        if !is_chosen(col_min, r0) {
            let cur = prev.push(r0);
            assert forall|r: usize| r < n implies (#[trigger] cur.contains(r) <==> !is_chosen(col_min, r)) by {
                if r < m {
                    if cur.contains(r) {
                        let t = choose|t: int| 0 <= t < cur.len() && cur[t] == r;
                        if t < prev.len() {
                            assert(prev.contains(r));
                        }
                    }
                    if prev.contains(r) {
                        let t = choose|t: int| 0 <= t < prev.len() && prev[t] == r;
                        assert(cur[t] == r);
                    }
                } else {
                    assert(cur[cur.len() - 1] == r);
                }
            }
        } else {
            assert forall|r: usize| r < n implies (#[trigger] prev.contains(r) <==> !is_chosen(col_min, r)) by {
                if r == m && prev.contains(r) {
                    let t = choose|t: int| 0 <= t < prev.len() && prev[t] == r;
                }
            }
        }
    }
}

/// A row chosen by column `j` has a last column that chose it.
proof fn lemma_last_choice_exists(col_min: Seq<usize>, j: int) -> (last: int)
    requires
        0 <= j < col_min.len(),
    ensures
        j <= last,
        is_last_choice(col_min, last),
        col_min[last] == col_min[j],
    decreases col_min.len() - j,
{
    if exists|j2: int| j < j2 < col_min.len() && col_min[j2] == col_min[j] {
        let j2 = choose|j2: int| j < j2 < col_min.len() && col_min[j2] == col_min[j];
        lemma_last_choice_exists(col_min, j2)
    } else {
        j
    }
}


/// The augmenting row reduction of Jonker-Volgenant, run over a list of
/// free rows. The list is a queue kept in place: the rows from position
/// `current` on are still to be processed, and the first `new_free`
/// positions hold the rows freed during this pass. For each free row the
/// caller reports the column `j1` of least reduced cost, the column `j2` of
/// second least (if any), and whether the least cost is strictly below the
/// second (`lowers`); `step` then moves the row onto a column and frees the
/// row that held it.
pub struct RowReduction {
    free_rows: Vec<usize>,
    current: usize,
    new_free: usize,
    rr_cnt: usize,
    k: usize,
}

impl RowReduction {
    /// The queue buffer.
    pub closed spec fn spec_buffer(&self) -> Seq<usize> {
        self.free_rows@
    }

    /// Position of the next row to process.
    pub closed spec fn spec_current(&self) -> nat {
        self.current as nat
    }

    /// Number of rows freed so far in this pass.
    pub closed spec fn spec_new_free(&self) -> nat {
        self.new_free as nat
    }

    /// Number of steps taken.
    pub closed spec fn spec_steps(&self) -> nat {
        self.rr_cnt as nat
    }

    /// Number of rows and columns of the problem.
    pub closed spec fn spec_k(&self) -> nat {
        self.k as nat
    }

    /// The state of the pass: queue buffer, position of the next row,
    /// number of rows set aside, number of steps taken.
    pub closed spec fn pass_state(&self) -> (Seq<usize>, nat, nat, nat) {
        (self.free_rows@, self.current as nat, self.new_free as nat, self.rr_cnt as nat)
    }

    /// The rows that are free right now: those freed in this pass and those
    /// still to be processed.
    pub open spec fn queue(&self) -> Seq<usize> {
        pass_queue(self.pass_state())
    }

    /// A measure that every step lowers.
    pub open spec fn measure(&self) -> nat {
        pass_measure(self.pass_state(), self.spec_k())
    }

    /// The pass state stays within its bounds.
    #[verifier::type_invariant]
    closed spec fn wf(&self) -> bool {
        pass_wf(self.pass_state(), self.spec_k())
    }

    /// The accessors read the state.
    pub proof fn lemma_state(&self)
        ensures
            self.pass_state() == (self.spec_buffer(), self.spec_current(), self.spec_new_free(),
            self.spec_steps()),
    {
    }

    /// A pass over `free_rows` for a `k × k` problem. The cost has `k · k`
    /// entries, so `k · k + 2k` fits in a `usize`.
    pub fn new(free_rows: Vec<usize>, k: usize) -> (s: RowReduction)
        requires
            free_rows@.len() <= k,
            k * k + 2 * k <= usize::MAX,
        ensures
            s.spec_buffer() == free_rows@,
            s.spec_current() == 0,
            s.spec_new_free() == 0,
            s.spec_steps() == 0,
            s.spec_k() == k,
            s.queue() == free_rows@,
    {
        let s = RowReduction { free_rows, current: 0, new_free: 0, rr_cnt: 0, k };
        assert(s.queue() =~= free_rows@);
        s
    }

    /// The next free row to process, if any.
    pub fn next_row(&self) -> (r: Option<usize>)
        ensures
            r is Some <==> self.spec_current() < self.spec_buffer().len(),
            r is Some ==> r->0 == self.spec_buffer()[self.spec_current() as int],
    {
        proof {
            use_type_invariant(self);
        }
        if self.current < self.free_rows.len() {
            Some(self.free_rows[self.current])
        } else {
            None
        }
    }

    /// Processes the next free row `free_i`: it takes column `j1`, or
    /// column `j2` when `j1` is held, `lowers` is false and the step budget
    /// allows a switch. The row that held the column becomes free: it is
    /// processed again right away when the column's dual value is lowered,
    /// and otherwise set aside for the next phase. Returns whether the dual
    /// value of `j1` is to be lowered.
    pub fn step(
        &mut self,
        in_col: &mut Vec<usize>,
        in_row: &mut Vec<usize>,
        j1: usize,
        j2: Option<usize>,
        lowers: bool,
    ) -> (lowered: bool)
        requires
            old(self).spec_current() < old(self).spec_buffer().len(),
            old(self).spec_buffer()[old(self).spec_current() as int] < old(self).spec_k(),
            old(in_col)@.len() == old(self).spec_k(),
            old(in_row)@.len() == old(self).spec_k(),
            j1 < old(self).spec_k(),
            j2 is Some ==> j2->0 < old(self).spec_k(),
        ensures
            (final(self).pass_state(), final(in_col)@, final(in_row)@) == row_step(
                old(self).pass_state(),
                old(self).spec_k(),
                old(in_col)@,
                old(in_row)@,
                j1,
                j2,
                lowers,
            ),
            final(self).spec_k() == old(self).spec_k(),
            lowered == (old(self).spec_steps() + 1 < (old(self).spec_current() + 1)
                * old(self).spec_k() && lowers),
            matched_count(final(in_col)@) >= matched_count(old(in_col)@),
            pass_wf(final(self).pass_state(), final(self).spec_k()),
            final(self).measure() < old(self).measure(),
            (is_consistent_matching(old(in_col)@, old(in_row)@) && free_rows_exact(
                old(in_col)@,
                old(self).queue(),
                old(self).spec_k(),
            )) ==> (is_consistent_matching(final(in_col)@, final(in_row)@) && free_rows_exact(
                final(in_col)@,
                final(self).queue(),
                final(self).spec_k(),
            )),
    {
        proof {
            use_type_invariant(&*self);
        }
        let ghost b0 = self.free_rows@;
        let ghost cur0 = self.current;
        let ghost new0 = self.new_free;
        let ghost rr0 = self.rr_cnt;
        let ghost col0 = in_col@;
        let ghost row0 = in_row@;
        let k = self.k;
        let len = self.free_rows.len();
        let free_i = self.free_rows[self.current];
        assert(self.rr_cnt + 1 <= k * k + 2 * k) by (nonlinear_arith)
            requires
                self.rr_cnt <= len * k + self.current,
                self.current < len,
                len <= k,
        ;
        let rr = self.rr_cnt + 1;
        let cur1 = self.current + 1;
        assert(cur1 * k <= k * k) by (nonlinear_arith)
            requires
                cur1 <= k,
        ;
        let inner = rr < cur1 * k;
        let mut jj = j1;
        let mut i0 = in_col[j1];
        if inner && !lowers && i0 != usize::MAX && j2.is_some() {
            jj = j2.unwrap();
            i0 = in_col[jj];
        }
        let lowered = inner && lowers;
        if lowered {
            assert(cur1 * k <= len * k) by (nonlinear_arith)
                requires
                    cur1 <= len,
            ;
        }
        if i0 != usize::MAX && lowered {
            let c = self.current;
            set_entry(&mut self.free_rows, c, i0);
        } else if i0 != usize::MAX {
            let n = self.new_free;
            set_entry(&mut self.free_rows, n, i0);
            self.current = cur1;
            self.new_free = n + 1;
        } else {
            self.current = cur1;
        }
        self.rr_cnt = rr;
        in_row.set(free_i, jj);
        in_col.set(jj, free_i);
        proof {
            let st0 = (b0, cur0 as nat, new0 as nat, rr0 as nat);
            assert(row_step(st0, k as nat, col0, row0, j1, j2, lowers) == (self.pass_state(), in_col@, in_row@));
            lemma_row_step(st0, k as nat, col0, row0, j1, j2, lowers);
        }
        lowered
    }

    /// The rows set aside for the next phase, once every row is processed.
    pub fn finish(self) -> (free: Vec<usize>)
        requires
            self.spec_current() == self.spec_buffer().len(),
        ensures
            free@ == self.queue(),
    {
        proof {
            use_type_invariant(&self);
        }
        let mut free = self.free_rows;
        free.truncate(self.new_free);
        proof {
            assert(free@ =~= self.queue());
        }
        free
    }
}


/// How one row-reduction step changes the queue of free rows: the row at
/// position `cur` leaves it, and `i0` joins it unless it is `usize::MAX`.
proof fn lemma_step_queue(
    b0: Seq<usize>,
    cur: nat,
    new: nat,
    b1: Seq<usize>,
    cur1: nat,
    new1: nat,
    free_i: usize,
    i0: usize,
    k: nat,
)
    requires
        new <= cur < b0.len(),
        free_i == b0[cur as int],
        (i0 != usize::MAX && cur1 == cur && new1 == new && b1 == b0.update(cur as int, i0)) || (i0
            != usize::MAX && cur1 == cur + 1 && new1 == new + 1 && b1 == b0.update(new as int, i0)) || (
        i0 == usize::MAX && cur1 == cur + 1 && new1 == new && b1 == b0),
    ensures
        ({
            let q0 = b0.subrange(0, new as int) + b0.subrange(cur as int, b0.len() as int);
            let q1 = b1.subrange(0, new1 as int) + b1.subrange(cur1 as int, b1.len() as int);
            &&& forall|r: usize|
                #[trigger] q1.contains(r) <==> ((q0.contains(r) && (r != free_i || exists|s: int, t: int|
                    0 <= s < t < q0.len() && q0[s] == r && q0[t] == r)) || (i0 != usize::MAX && r
                    == i0))
            &&& (forall|s: int, t: int| 0 <= s < t < q0.len() ==> q0[s] != q0[t]) && (i0 == usize::MAX
                || !q0.contains(i0)) ==> forall|s: int, t: int| 0 <= s < t < q1.len() ==> q1[s] != q1[t]
            &&& (forall|t: int| 0 <= t < q0.len() ==> #[trigger] q0[t] < k) && (i0 == usize::MAX || i0
                < k) ==> forall|t: int| 0 <= t < q1.len() ==> #[trigger] q1[t] < k
        }),
{
    let q0 = b0.subrange(0, new as int) + b0.subrange(cur as int, b0.len() as int);
    let q1 = b1.subrange(0, new1 as int) + b1.subrange(cur1 as int, b1.len() as int);
    let n = new as int;
    // q0 = head ++ [free_i] ++ tail; q1 = head ++ mid ++ tail with mid = [i0] or [].
    let head = b0.subrange(0, n);
    let tail = b0.subrange(cur as int + 1, b0.len() as int);
    assert(q0 =~= head + seq![free_i] + tail);
    let mid = if i0 != usize::MAX { seq![i0] } else { Seq::<usize>::empty() };
    assert(q1 =~= head + mid + tail);
    assert forall|r: usize|
        #[trigger] q1.contains(r) <==> ((q0.contains(r) && (r != free_i || exists|s: int, t: int|
            0 <= s < t < q0.len() && q0[s] == r && q0[t] == r)) || (i0 != usize::MAX && r == i0)) by {
        if q1.contains(r) {
            let t = choose|t: int| 0 <= t < q1.len() && q1[t] == r;
            if t < n {
                assert(q0[t] == r);
                if r == free_i {
                    assert(q0[n] == r);
                }
            } else if t >= n + mid.len() {
                let t0 = t - mid.len() + 1;
                assert(q0[t0] == r);
                if r == free_i {
                    assert(q0[n] == r);
                }
            }
        }
        if q0.contains(r) && (r != free_i || exists|s: int, t: int|
            0 <= s < t < q0.len() && q0[s] == r && q0[t] == r) {
            let t = if r != free_i {
                choose|t: int| 0 <= t < q0.len() && q0[t] == r
            } else {
                let (s, t) = choose|s: int, t: int| 0 <= s < t < q0.len() && q0[s] == r && q0[t] == r;
                if s != n { s } else { t }
            };
            assert(t != n);
            if t < n {
                assert(q1[t] == r);
            } else {
                assert(q1[t - 1 + mid.len()] == r);
            }
        }
        if i0 != usize::MAX && r == i0 {
            assert(q1[n] == r);
        }
    }
    if (forall|s: int, t: int| 0 <= s < t < q0.len() ==> q0[s] != q0[t]) && (i0 == usize::MAX
        || !q0.contains(i0)) {
        assert forall|s: int, t: int| 0 <= s < t < q1.len() implies q1[s] != q1[t] by {
            let fs = if s < n { s } else if s >= n + mid.len() { s - mid.len() + 1 } else { -1 };
            let ft = if t < n { t } else if t >= n + mid.len() { t - mid.len() + 1 } else { -1 };
            if fs >= 0 && ft >= 0 {
                assert(q1[s] == q0[fs]);
                assert(q1[t] == q0[ft]);
            } else if fs < 0 {
                assert(q1[s] == i0);
                assert(q1[t] == q0[ft]);
            } else {
                assert(q1[t] == i0);
                assert(q1[s] == q0[fs]);
            }
        }
    }
    if (forall|t: int| 0 <= t < q0.len() ==> #[trigger] q0[t] < k) && (i0 == usize::MAX || i0 < k) {
        assert forall|t: int| 0 <= t < q1.len() implies #[trigger] q1[t] < k by {
            if t < n {
                assert(q1[t] == q0[t]);
            } else if t >= n + mid.len() {
                assert(q1[t] == q0[t - mid.len() + 1]);
            }
        }
    }
}

/// One row-reduction step keeps the matching consistent and the free rows
/// exactly the unmatched ones: row `free_i` takes column `jj`, and `i0`,
/// the row that held `jj`, is freed.
proof fn lemma_step_matching(
    col0: Seq<usize>,
    row0: Seq<usize>,
    q0: Seq<usize>,
    q1: Seq<usize>,
    free_i: usize,
    jj: usize,
    i0: usize,
    k: nat,
)
    requires
        col0.len() == k,
        row0.len() == k,
        k <= usize::MAX,
        jj < k,
        free_i < k,
        q0.contains(free_i),
        i0 == col0[jj as int],
        is_consistent_matching(col0, row0),
        free_rows_exact(col0, q0, k),
        forall|r: usize|
            #[trigger] q1.contains(r) <==> ((q0.contains(r) && (r != free_i || exists|s: int, t: int|
                0 <= s < t < q0.len() && q0[s] == r && q0[t] == r)) || (i0 != usize::MAX && r == i0)),
        (forall|s: int, t: int| 0 <= s < t < q0.len() ==> q0[s] != q0[t]) && (i0 == usize::MAX
            || !q0.contains(i0)) ==> forall|s: int, t: int| 0 <= s < t < q1.len() ==> q1[s] != q1[t],
        (forall|t: int| 0 <= t < q0.len() ==> #[trigger] q0[t] < k) && (i0 == usize::MAX || i0 < k)
            ==> forall|t: int| 0 <= t < q1.len() ==> #[trigger] q1[t] < k,
    ensures
        is_consistent_matching(col0.update(jj as int, free_i), row0.update(free_i as int, jj)),
        free_rows_exact(col0.update(jj as int, free_i), q1, k),
{
    let col1 = col0.update(jj as int, free_i);
    let row1 = row0.update(free_i as int, jj);
    // free_i was unmatched, so no column pointed at it.
    assert(!is_matched(col0, free_i));
    if i0 != usize::MAX {
        assert(i0 < k);
        assert(row0[i0 as int] == jj);
        assert(is_matched(col0, i0));
        assert(!q0.contains(i0));
    }
    assert forall|j: int| 0 <= j < col1.len() && col1[j] != usize::MAX implies {
        &&& (#[trigger] col1[j]) < row1.len()
        &&& row1[col1[j] as int] == j
    } by {
        if j != jj {
            assert(col1[j] == col0[j]);
            if col0[j] == free_i {
                assert(is_matched(col0, free_i));
            }
        }
    }
    assert forall|r: usize| r < k implies (#[trigger] is_matched(col1, r) <==> !q1.contains(r)) by {
        if r == free_i {
            assert(col1[jj as int] == free_i);
        } else if i0 != usize::MAX && r == i0 {
            if is_matched(col1, r) {
                let j = choose|j: int| 0 <= j < col1.len() && col1[j] == r;
                assert(j != jj);
                assert(col0[j] == r);
                assert(row0[r as int] == j);
            }
        } else {
            if is_matched(col0, r) {
                let j = choose|j: int| 0 <= j < col0.len() && col0[j] == r;
                assert(j != jj);
                assert(col1[j] == r);
            }
            if is_matched(col1, r) {
                let j = choose|j: int| 0 <= j < col1.len() && col1[j] == r;
                assert(col0[j] == r);
            }
        }
    }
}


/// The Jonker-Volgenant result is a permutation once no row is free: with
/// a consistent matching whose free rows are exactly the unmatched ones,
/// an empty list of free rows means `in_col` assigns every column its own
/// row of `0..k`.
pub proof fn lemma_no_free_rows_is_permutation(in_col: Seq<usize>, in_row: Seq<usize>, free: Seq<usize>)
    requires
        in_col.len() == in_row.len(),
        in_col.len() <= usize::MAX,
        is_consistent_matching(in_col, in_row),
        free_rows_exact(in_col, free, in_col.len() as nat),
        free.len() == 0,
    ensures
        is_permutation(in_col, in_col.len() as nat),
{
    assert forall|r: usize| r < in_col.len() implies #[trigger] is_matched(in_col, r) by {
        assert(!free.contains(r));
    }
    lemma_full_matching_is_permutation(in_col, in_row);
}


/// Moves the column at position `idx` of the shortest-path search's column
/// list to position `hi`, the end of the segment being built, by exchanging
/// the two entries; returns the segment's new end `hi + 1`. The list stays
/// a permutation of the columns.
pub fn promote_column(collist: &mut Vec<usize>, idx: usize, hi: usize) -> (new_hi: usize)
    requires
        idx < old(collist)@.len(),
        hi < old(collist)@.len(),
    ensures
        final(collist)@ == swap_at(old(collist)@, hi as int, idx as int),
        new_hi == hi + 1,
        is_permutation(old(collist)@, old(collist)@.len() as nat) ==> is_permutation(
            final(collist)@,
            old(collist)@.len() as nat,
        ),
    no_unwind
{
    let len = collist.len();
    let j = collist[idx];
    let other = collist[hi];
    collist[idx] = other;
    collist[hi] = j;
    proof {
        let s0 = old(collist)@;
        let n = s0.len() as nat;
        assert(n == len);
        assert(collist@ =~= swap_at(s0, hi as int, idx as int));
        if is_permutation(s0, n) {
            lemma_permutation_rearranges_identity(s0, n);
            lemma_swap_rearranges(s0, hi as int, idx as int, n);
            lemma_rearranges_trans(collist@, s0, identity_perm(n), n);
            lemma_permutation_rearranges_identity(collist@, n);
        }
    }
    hi + 1
}


/// Across the augmentation phase the free rows stay exactly the unmatched
/// ones: when the rows still to augment are `free_row` followed by `rest`,
/// and augmenting matches `free_row` while leaving every other row as
/// matched or unmatched as it was, the rows left are `rest`.
pub proof fn lemma_augment_keeps_free_rows(
    col0: Seq<usize>,
    col1: Seq<usize>,
    free_row: usize,
    rest: Seq<usize>,
    k: nat,
)
    requires
        free_rows_exact(col0, seq![free_row] + rest, k),
        forall|r: usize| r < k ==> (#[trigger] is_matched(col1, r) <==> (is_matched(col0, r) || r == free_row)),
    ensures
        free_rows_exact(col1, rest, k),
{
    let q = seq![free_row] + rest;
    assert forall|t: int| 0 <= t < rest.len() implies #[trigger] rest[t] < k by {
        assert(q[t + 1] == rest[t]);
    }
    assert forall|s: int, t: int| 0 <= s < t < rest.len() implies rest[s] != rest[t] by {
        assert(q[s + 1] == rest[s]);
        assert(q[t + 1] == rest[t]);
    }
    assert forall|r: usize| r < k implies (#[trigger] is_matched(col1, r) <==> !rest.contains(r)) by {
        if rest.contains(r) {
            let t = choose|t: int| 0 <= t < rest.len() && rest[t] == r;
            assert(q[t + 1] == r);
            assert(q.contains(r));
            assert(q[0] != q[t + 1]);
        }
        if !rest.contains(r) && r != free_row {
            if q.contains(r) {
                let t = choose|t: int| 0 <= t < q.len() && q[t] == r;
                assert(rest[t - 1] == r);
            }
        }
        assert(q[0] == free_row);
    }
}


/// The rows that are free in pass state `st`: those set aside, then those
/// still to be processed.
pub open spec fn pass_queue(st: (Seq<usize>, nat, nat, nat)) -> Seq<usize> {
    st.0.subrange(0, st.2 as int) + st.0.subrange(st.1 as int, st.0.len() as int)
}

/// Bounds of a pass state for a `k × k` problem: the rows set aside come
/// before the next row to process, the buffer holds at most `k` rows, and
/// the steps taken are bounded by the budget.
pub open spec fn pass_bounds(st: (Seq<usize>, nat, nat, nat), k: nat) -> bool {
    &&& st.2 <= st.1 <= st.0.len() <= k
    &&& st.3 <= st.0.len() * k + st.1
}

/// The bounds of a pass state, with its step counter in `usize` range.
pub open spec fn pass_wf(st: (Seq<usize>, nat, nat, nat), k: nat) -> bool {
    &&& pass_bounds(st, k)
    &&& k * k + 2 * k <= usize::MAX
}

/// A measure of a pass state that every step lowers.
pub open spec fn pass_measure(st: (Seq<usize>, nat, nat, nat), k: nat) -> nat {
    (st.0.len() * k + 2 * st.0.len() - st.3 - st.1) as nat
}

/// Number of matched columns.
pub open spec fn matched_count(in_col: Seq<usize>) -> nat
    decreases in_col.len(),
{
    if in_col.len() == 0 {
        0
    } else {
        matched_count(in_col.drop_last()) + if in_col.last() != usize::MAX {
            1nat
        } else {
            0nat
        }
    }
}

/// One row-reduction step on pass state `st` and matching
/// `(in_col, in_row)`: the next free row `free_i` takes column `j1`, or
/// `j2` when `j1` is held, `lowers` is false and the step budget allows a
/// switch; the row `i0` that held the column is processed again next when
/// the column's value is lowered, set aside otherwise.
pub open spec fn row_step(
    st: (Seq<usize>, nat, nat, nat),
    k: nat,
    in_col: Seq<usize>,
    in_row: Seq<usize>,
    j1: usize,
    j2: Option<usize>,
    lowers: bool,
) -> ((Seq<usize>, nat, nat, nat), Seq<usize>, Seq<usize>) {
    let (b, cur, new, steps) = st;
    let free_i = b[cur as int];
    let cur1 = cur + 1;
    let inner = steps + 1 < cur1 * k;
    let jj = if inner && !lowers && in_col[j1 as int] != usize::MAX && j2 is Some {
        j2->0
    } else {
        j1
    };
    let i0 = in_col[jj as int];
    let st2 = if i0 != usize::MAX && inner && lowers {
        (b.update(cur as int, i0), cur, new, steps + 1)
    } else if i0 != usize::MAX {
        (b.update(new as int, i0), cur1, new + 1, steps + 1)
    } else {
        (b, cur1, new, steps + 1)
    };
    (st2, in_col.update(jj as int, free_i), in_row.update(free_i as int, jj))
}

/// Row-reduction steps from pass state `st` with the column choices
/// `choices` (`j1`, `j2`, `lowers` per step), until the choices run out or
/// every row is processed.
pub open spec fn row_pass(
    st: (Seq<usize>, nat, nat, nat),
    k: nat,
    in_col: Seq<usize>,
    in_row: Seq<usize>,
    choices: Seq<(usize, Option<usize>, bool)>,
) -> ((Seq<usize>, nat, nat, nat), Seq<usize>, Seq<usize>)
    decreases choices.len(),
{
    if choices.len() == 0 || st.1 >= st.0.len() {
        (st, in_col, in_row)
    } else {
        let (st2, c2, r2) = row_step(st, k, in_col, in_row, choices[0].0, choices[0].1, choices[0].2);
        row_pass(st2, k, c2, r2, choices.drop_first())
    }
}

proof fn lemma_matched_count_update(in_col: Seq<usize>, j: int, v: usize)
    requires
        0 <= j < in_col.len(),
    ensures
        matched_count(in_col.update(j, v)) + (if in_col[j] != usize::MAX { 1nat } else { 0nat })
            == matched_count(in_col) + (if v != usize::MAX { 1nat } else { 0nat }),
    decreases in_col.len(),
{
    let u = in_col.update(j, v);
    if j == in_col.len() - 1 {
        assert(u.drop_last() =~= in_col.drop_last());
    } else {
        lemma_matched_count_update(in_col.drop_last(), j, v);
        assert(u.drop_last() =~= in_col.drop_last().update(j, v));
    }
}

/// One row-reduction step keeps the pass state's bounds, lowers its
/// measure, never lowers the number of matched columns, and keeps the
/// matching consistent with the free rows exactly the unmatched ones.
pub proof fn lemma_row_step(
    st: (Seq<usize>, nat, nat, nat),
    k: nat,
    in_col: Seq<usize>,
    in_row: Seq<usize>,
    j1: usize,
    j2: Option<usize>,
    lowers: bool,
)
    requires
        pass_bounds(st, k),
        st.1 < st.0.len(),
        st.0[st.1 as int] < k,
        in_col.len() == k,
        in_row.len() == k,
        k <= usize::MAX,
        j1 < k,
        j2 is Some ==> j2->0 < k,
    ensures
        ({
            let (st2, c2, r2) = row_step(st, k, in_col, in_row, j1, j2, lowers);
            &&& pass_bounds(st2, k)
            &&& st2.0.len() == st.0.len()
            &&& pass_measure(st2, k) < pass_measure(st, k)
            &&& c2.len() == k
            &&& r2.len() == k
            &&& matched_count(c2) >= matched_count(in_col)
            &&& (is_consistent_matching(in_col, in_row) && free_rows_exact(in_col, pass_queue(st), k))
                ==> (is_consistent_matching(c2, r2) && free_rows_exact(c2, pass_queue(st2), k))
        }),
{
    let (b, cur, new, steps) = st;
    let (st2, c2, r2) = row_step(st, k, in_col, in_row, j1, j2, lowers);
    let len = b.len();
    let free_i = b[cur as int];
    let cur1 = cur + 1;
    let inner = steps + 1 < cur1 * k;
    let jj = if inner && !lowers && in_col[j1 as int] != usize::MAX && j2 is Some {
        j2->0
    } else {
        j1
    };
    let i0 = in_col[jj as int];
    if inner {
        assert(cur1 * k <= len * k + cur1) by (nonlinear_arith)
            requires
                cur1 <= len,
                len <= k,
        ;
    }
    lemma_step_queue(b, cur, new, st2.0, st2.1, st2.2, free_i, i0, k);
    lemma_matched_count_update(in_col, jj as int, free_i);
    if is_consistent_matching(in_col, in_row) && free_rows_exact(in_col, pass_queue(st), k) {
        assert(pass_queue(st)[new as int] == free_i);
        lemma_step_matching(in_col, in_row, pass_queue(st), pass_queue(st2), free_i, jj, i0, k);
    }
}

/// A whole row-reduction pass: from a consistent matching whose free rows
/// are exactly the unmatched ones, any run of steps keeps the matching
/// consistent, keeps the free rows exactly the unmatched ones and never
/// lowers the number of matched columns; and once as many steps were taken
/// as the starting measure, every row is processed, so the rows that
/// `finish` returns are exactly the unmatched ones.
pub proof fn lemma_row_pass(
    st: (Seq<usize>, nat, nat, nat),
    k: nat,
    in_col: Seq<usize>,
    in_row: Seq<usize>,
    choices: Seq<(usize, Option<usize>, bool)>,
)
    requires
        pass_bounds(st, k),
        in_col.len() == k,
        in_row.len() == k,
        k <= usize::MAX,
        is_consistent_matching(in_col, in_row),
        free_rows_exact(in_col, pass_queue(st), k),
        forall|t: int|
            0 <= t < choices.len() ==> (#[trigger] choices[t]).0 < k && (choices[t].1 is Some
                ==> choices[t].1->0 < k),
    ensures
        ({
            let (st2, c2, r2) = row_pass(st, k, in_col, in_row, choices);
            &&& pass_bounds(st2, k)
            &&& is_consistent_matching(c2, r2)
            &&& free_rows_exact(c2, pass_queue(st2), k)
            &&& matched_count(c2) >= matched_count(in_col)
            &&& choices.len() >= pass_measure(st, k) ==> st2.1 == st2.0.len()
            &&& st2.1 == st2.0.len() ==> free_rows_exact(c2, st2.0.subrange(0, st2.2 as int), k)
        }),
    decreases choices.len(),
{
    if choices.len() == 0 || st.1 >= st.0.len() {
        assert(st.1 == st.0.len() ==> pass_queue(st) =~= st.0.subrange(0, st.2 as int));
    } else {
        let q = pass_queue(st);
        assert(q[st.2 as int] == st.0[st.1 as int]);
        let c = choices[0];
        lemma_row_step(st, k, in_col, in_row, c.0, c.1, c.2);
        let (st2, c2, r2) = row_step(st, k, in_col, in_row, c.0, c.1, c.2);
        let rest = choices.drop_first();
        assert forall|t: int| 0 <= t < rest.len() implies (#[trigger] rest[t]).0 < k && (rest[t].1 is Some
            ==> rest[t].1->0 < k) by {
            assert(rest[t] == choices[t + 1]);
        }
        lemma_row_pass(st2, k, c2, r2, rest);
    }
}


/// Which column a row-reduction step gives the row it processes: its
/// cheapest column `j1` when that column is free, when there is no second
/// choice, or when moving there lowers the column's value; otherwise, while
/// the step budget allows, the second cheapest `j2`. The row and the column
/// then point at each other, and the row that held the column (if any)
/// is the one the queue gains.
pub proof fn lemma_row_step_choice(
    st: (Seq<usize>, nat, nat, nat),
    k: nat,
    in_col: Seq<usize>,
    in_row: Seq<usize>,
    j1: usize,
    j2: Option<usize>,
    lowers: bool,
)
    requires
        pass_bounds(st, k),
        st.1 < st.0.len(),
        st.0[st.1 as int] < k,
        in_col.len() == k,
        in_row.len() == k,
        j1 < k,
        j2 is Some ==> j2->0 < k,
    ensures
        ({
            let (st2, c2, r2) = row_step(st, k, in_col, in_row, j1, j2, lowers);
            let free_i = st.0[st.1 as int];
            let jj = r2[free_i as int];
            &&& jj == j1 || (j2 is Some && jj == j2->0)
            &&& (in_col[j1 as int] == usize::MAX || j2 is None || lowers) ==> jj == j1
            &&& c2[jj as int] == free_i
            &&& in_col[jj as int] != usize::MAX ==> pass_queue(st2).contains(in_col[jj as int])
            &&& forall|j: int| 0 <= j < k && j != jj ==> c2[j] == in_col[j]
        }),
{
    let (st2, c2, r2) = row_step(st, k, in_col, in_row, j1, j2, lowers);
    let (b, cur, new, steps) = st;
    let i0_col = r2[b[cur as int] as int];
    let i0 = in_col[i0_col as int];
    if i0 != usize::MAX {
        if steps + 1 < (cur + 1) * k && lowers {
            assert(pass_queue(st2)[new as int] == i0);
        } else {
            assert(pass_queue(st2)[new as int] == i0);
        }
    }
}

/// A list of distinct rows of `0..k` has at most `k` entries.
proof fn lemma_distinct_rows_at_most_k(free: Seq<usize>, k: nat)
    requires
        forall|t: int| 0 <= t < free.len() ==> #[trigger] free[t] < k,
        forall|s: int, t: int| 0 <= s < t < free.len() ==> free[s] != free[t],
    ensures
        free.len() <= k,
{
    let dom = set_int_range(0, free.len() as int);
    let f = |t: int| free[t] as int;
    lemma_int_range(0, free.len() as int);
    lemma_int_range(0, k as int);
    assert(injective_on(f, dom)) by {
        assert forall|x: int, y: int| dom.contains(x) && dom.contains(y) && #[trigger] f(x) == #[trigger] f(
            y,
        ) implies x == y by {
            if x < y {
                assert(free[x] != free[y]);
            } else if y < x {
                assert(free[y] != free[x]);
            }
        }
    }
    let image = dom.map(f);
    lemma_map_size(dom, image, f);
    assert(image.subset_of(set_int_range(0, k as int)));
    vstd::set_lib::lemma_len_subset(image, set_int_range(0, k as int));
}

/// A whole row-reduction pass from its start: from a consistent matching
/// whose free rows are exactly the unmatched ones, any run of steps over
/// those rows keeps the matching consistent and the rows still free exactly
/// the unmatched ones, and never lowers the number of matched columns;
/// `free.len() · (k + 2)` steps always complete the pass, and once it is
/// complete the rows `finish` returns are exactly the unmatched ones.
pub proof fn lemma_row_pass_from_start(
    free: Seq<usize>,
    k: nat,
    in_col: Seq<usize>,
    in_row: Seq<usize>,
    choices: Seq<(usize, Option<usize>, bool)>,
)
    requires
        in_col.len() == k,
        in_row.len() == k,
        k <= usize::MAX,
        is_consistent_matching(in_col, in_row),
        free_rows_exact(in_col, free, k),
        forall|t: int|
            0 <= t < choices.len() ==> (#[trigger] choices[t]).0 < k && (choices[t].1 is Some
                ==> choices[t].1->0 < k),
    ensures
        ({
            let (st2, c2, r2) = row_pass((free, 0, 0, 0), k, in_col, in_row, choices);
            &&& is_consistent_matching(c2, r2)
            &&& free_rows_exact(c2, pass_queue(st2), k)
            &&& matched_count(c2) >= matched_count(in_col)
            &&& choices.len() >= free.len() * (k + 2) ==> st2.1 == st2.0.len()
            &&& st2.1 == st2.0.len() ==> free_rows_exact(c2, st2.0.subrange(0, st2.2 as int), k)
        }),
{
    let st: (Seq<usize>, nat, nat, nat) = (free, 0, 0, 0);
    lemma_distinct_rows_at_most_k(free, k);
    assert(pass_queue(st) =~= free);
    assert(free.len() * (k + 2) == free.len() * k + 2 * free.len()) by (nonlinear_arith);
    lemma_row_pass(st, k, in_col, in_row, choices);
}

/// The augmentation phase: each row of `rows` in turn is matched by
/// flipping the path given for it (`preds[t]`, ending at column `ends[t]`),
/// as `augment_path` does; it stops early only if a flip does not reach
/// its row within `k` steps.
pub open spec fn augment_phase(
    in_col: Seq<usize>,
    in_row: Seq<usize>,
    rows: Seq<usize>,
    preds: Seq<Seq<usize>>,
    ends: Seq<int>,
) -> (Seq<usize>, Seq<usize>)
    decreases rows.len(),
{
    if rows.len() == 0 || preds.len() == 0 || ends.len() == 0 {
        (in_col, in_row)
    } else {
        match augment_run(in_col, in_row, preds[0], rows[0], ends[0], in_col.len() as nat) {
            Some((c2, r2)) => augment_phase(
                c2,
                r2,
                rows.drop_first(),
                preds.drop_first(),
                ends.drop_first(),
            ),
            None => (in_col, in_row),
        }
    }
}

/// Every path of the phase is an augmenting path of the matching it is
/// applied to, with its entries in range.
pub open spec fn phase_paths_augmenting(
    in_col: Seq<usize>,
    in_row: Seq<usize>,
    rows: Seq<usize>,
    preds: Seq<Seq<usize>>,
    ends: Seq<int>,
) -> bool
    decreases rows.len(),
{
    if rows.len() == 0 {
        true
    } else {
        &&& preds.len() > 0
        &&& ends.len() > 0
        &&& 0 <= ends[0] < in_col.len()
        &&& preds[0].len() == in_col.len()
        &&& forall|c: int| 0 <= c < in_col.len() ==> #[trigger] preds[0][c] < in_col.len()
        &&& exists|len: nat| is_augmenting_path(in_col, in_row, preds[0], rows[0], ends[0], len)
        &&& match augment_run(in_col, in_row, preds[0], rows[0], ends[0], in_col.len() as nat) {
            Some((c2, r2)) => phase_paths_augmenting(
                c2,
                r2,
                rows.drop_first(),
                preds.drop_first(),
                ends.drop_first(),
            ),
            None => true,
        }
    }
}

/// Every flip of the phase reaches its row within `k` steps, so the
/// augmentation never reports that it ran over.
pub open spec fn augment_phase_reaches(
    in_col: Seq<usize>,
    in_row: Seq<usize>,
    rows: Seq<usize>,
    preds: Seq<Seq<usize>>,
    ends: Seq<int>,
) -> bool
    decreases rows.len(),
{
    if rows.len() == 0 || preds.len() == 0 || ends.len() == 0 {
        true
    } else {
        match augment_run(in_col, in_row, preds[0], rows[0], ends[0], in_col.len() as nat) {
            Some((c2, r2)) => augment_phase_reaches(
                c2,
                r2,
                rows.drop_first(),
                preds.drop_first(),
                ends.drop_first(),
            ),
            None => false,
        }
    }
}

proof fn lemma_flipped_rows_in_range(
    in_col: Seq<usize>,
    in_row: Seq<usize>,
    pred: Seq<usize>,
    free_row: usize,
    end: int,
    len: nat,
)
    requires
        in_col.len() == in_row.len() == pred.len(),
        pred.len() <= usize::MAX,
        0 <= end < pred.len(),
        forall|c: int| 0 <= c < pred.len() ==> #[trigger] pred[c] < pred.len(),
        forall|r: int| 0 <= r < in_row.len() ==> #[trigger] in_row[r] < in_row.len(),
        is_augmenting_path(in_col, in_row, pred, free_row, end, len),
    ensures
        forall|r: int|
            0 <= r < in_row.len() ==> #[trigger] flipped_rows(in_col, in_row, pred, end, len)[r]
                < in_row.len(),
{
    lemma_flipped(in_col, in_row, pred, free_row, end, len, len);
    let r2 = flipped_rows(in_col, in_row, pred, end, len);
    assert forall|r: int| 0 <= r < in_row.len() implies #[trigger] r2[r] < in_row.len() by {
        if exists|s: nat| s < len && #[trigger] path_row(in_row, pred, end, s) == r {
            let s = choose|s: nat| s < len && #[trigger] path_row(in_row, pred, end, s) == r;
            lemma_path_in_range(in_row, pred, end, s);
        }
    }
}

/// The whole augmentation phase: from a consistent matching whose
/// unmatched rows are exactly `rows`, augmenting each of them in turn
/// along an augmenting path reaches it within `k` steps every time (so the
/// augmentation never runs over), and ends in a full matching: `in_col`
/// is a permutation of `0..k` and every column's row points back at it.
pub proof fn lemma_augment_phase(
    in_col: Seq<usize>,
    in_row: Seq<usize>,
    rows: Seq<usize>,
    preds: Seq<Seq<usize>>,
    ends: Seq<int>,
)
    requires
        in_col.len() == in_row.len(),
        in_col.len() <= usize::MAX,
        forall|r: int| 0 <= r < in_row.len() ==> #[trigger] in_row[r] < in_row.len(),
        is_consistent_matching(in_col, in_row),
        free_rows_exact(in_col, rows, in_col.len() as nat),
        phase_paths_augmenting(in_col, in_row, rows, preds, ends),
    ensures
        ({
            let (c2, r2) = augment_phase(in_col, in_row, rows, preds, ends);
            &&& augment_phase_reaches(in_col, in_row, rows, preds, ends)
            &&& is_permutation(c2, in_col.len() as nat)
            &&& is_consistent_matching(c2, r2)
            &&& forall|j: int| 0 <= j < c2.len() ==> r2[#[trigger] c2[j] as int] == j
        }),
    decreases rows.len(),
{
    let k = in_col.len();
    if rows.len() == 0 {
        lemma_no_free_rows_is_permutation(in_col, in_row, rows);
    } else {
        let row0 = rows[0];
        let pred = preds[0];
        let end = ends[0];
        let len = choose|len: nat| is_augmenting_path(in_col, in_row, pred, row0, end, len);
        assert(rows.contains(row0));
        assert forall|j: int| 0 <= j < in_col.len() implies #[trigger] in_col[j] != row0 by {
            if in_col[j] == row0 {
                assert(is_matched(in_col, row0));
            }
        }
        lemma_augment_keeps_matching(in_col, in_row, pred, row0, end, len);
        lemma_flipped_rows_in_range(in_col, in_row, pred, row0, end, len);
        let c2 = flipped_cols(in_col, in_row, pred, end, len);
        let r2 = flipped_rows(in_col, in_row, pred, end, len);
        lemma_flipped(in_col, in_row, pred, row0, end, len, len);
        let rest = rows.drop_first();
        assert(rows =~= seq![row0] + rest);
        lemma_augment_keeps_free_rows(in_col, c2, row0, rest, k as nat);
        lemma_augment_phase(c2, r2, rest, preds.drop_first(), ends.drop_first());
    }
    let (c2, r2) = augment_phase(in_col, in_row, rows, preds, ends);
    assert forall|j: int| 0 <= j < c2.len() implies r2[#[trigger] c2[j] as int] == j by {
        assert(c2[j] < c2.len());
    }
}


/// Number of row-reduction passes before the augmentation phase.
pub const ROW_REDUCTION_PASSES: usize = 2;

/// The phases of the Jonker-Volgenant solver after column reduction.
#[derive(Debug, Clone, Copy, PartialEq, Eq, Structural)]
pub enum JvPhase {
    /// Run one more augmenting row-reduction pass over the free rows.
    RowReduction,
    /// Augment each remaining free row along a shortest path; then done.
    Augmentation,
    /// No row is free: the matching is complete.
    Done,
}

/// The next phase, after `row_passes` row-reduction passes, when some row
/// is still free (`any_free`): row reduction up to two passes, then
/// augmentation; nothing once no row is free.
pub fn jv_next_phase(row_passes: usize, any_free: bool) -> (p: JvPhase)
    ensures
        p == (if !any_free {
            JvPhase::Done
        } else if row_passes < ROW_REDUCTION_PASSES {
            JvPhase::RowReduction
        } else {
            JvPhase::Augmentation
        }),
{
    if !any_free {
        JvPhase::Done
    } else if row_passes < ROW_REDUCTION_PASSES {
        JvPhase::RowReduction
    } else {
        JvPhase::Augmentation
    }
}

} // verus!
