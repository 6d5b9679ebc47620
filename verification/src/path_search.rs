//! The column bookkeeping of the Jonker-Volgenant shortest-path search.
//!
//! The search grows a tree of alternating paths from a free row `start`.
//! Its column list is a permutation of `0..k` split into three segments:
//! the columns already scanned (`0..lo`), the columns ready to be scanned
//! (`lo..hi`, all at the current least distance) and the columns still to
//! do (`hi..k`). `pred[c]` is the row from which column `c` was last
//! reached. The distances themselves are floating-point and stay with the
//! caller, which hands in the outcome of each comparison; whatever those
//! outcomes are, a column the search reports is unmatched and the end of
//! an augmenting path back to `start`.
//!
//! The Jonker-Volgenant solver is based on lapjv-rust v0.3.0 (MIT License,
//! Copyright (c) 2018-2021 Andrii Dmytrenko); the notice is in
//! `extras/LICENSE-THIRDPARTY`.
use vstd::prelude::*;
use vstd::relations::injective_on;
use vstd::set_lib::{lemma_int_range, lemma_map_size, lemma_subset_equality, set_int_range};

use crate::assignment::{
    augment_path, augment_run, free_rows_exact, is_augmenting_path, is_consistent_matching,
    is_matched, lemma_augment_keeps_free_rows, lemma_no_free_rows_is_permutation, path_col, path_row,
    promote_column,
};
use crate::heap::{identity_perm, is_permutation, swap_at};
use crate::heap_laws::occurs_in;

verus! {

/// Position of column `c` in the column list.
pub open spec fn col_pos(collist: Seq<usize>, c: int) -> int {
    choose|q: int| 0 <= q < collist.len() && collist[q] as int == c
}

/// Every column was reached either from `start` or from the row of a
/// column scanned before it (earlier in the list and among the first `lo`).
pub open spec fn chain_ok(
    collist: Seq<usize>,
    pred: Seq<usize>,
    cols: Seq<usize>,
    lo: int,
    start: usize,
) -> bool {
    forall|q: int|
        0 <= q < collist.len() ==> #[trigger] pred[collist[q] as int] == start || exists|p: int|
            0 <= p < q && p < lo && pred[collist[q] as int] == cols[#[trigger] collist[p] as int]
}

/// Following `pred` back from column `end` for `len` steps reaches
/// `start`: each column after the first is the one matched to the row
/// before it, and the columns come earlier and earlier in the list.
pub open spec fn chain_path(
    cols: Seq<usize>,
    rows: Seq<usize>,
    pred: Seq<usize>,
    collist: Seq<usize>,
    start: usize,
    end: int,
    len: nat,
) -> bool {
    &&& 1 <= len
    &&& path_row(rows, pred, end, (len - 1) as nat) == start
    &&& forall|t: nat| t < len ==> 0 <= #[trigger] path_col(rows, pred, end, t) < collist.len()
    &&& forall|t: nat|
        t + 1 < len ==> cols[path_col(rows, pred, end, t + 1)] == #[trigger] path_row(
            rows,
            pred,
            end,
            t,
        )
    &&& forall|s: nat, t: nat|
        s < t < len ==> col_pos(collist, #[trigger] path_col(rows, pred, end, t)) < col_pos(
            collist,
            #[trigger] path_col(rows, pred, end, s),
        )
}

proof fn lemma_col_pos(collist: Seq<usize>, q: int)
    requires
        is_permutation(collist, collist.len()),
        0 <= q < collist.len(),
    ensures
        col_pos(collist, collist[q] as int) == q,
{
    let c = collist[q] as int;
    assert(collist[q] as int == c);
    let q2 = col_pos(collist, c);
    if q2 != q {
        assert(collist[q2] != collist[q]);
    }
}

/// The path from `end` continues as the path from the column matched to
/// the row `end` was reached from.
proof fn lemma_path_shift(rows: Seq<usize>, pred: Seq<usize>, end: int, t: nat)
    ensures
        path_col(rows, pred, end, t + 1) == path_col(rows, pred, rows[pred[end] as int] as int, t),
    decreases t,
{
    let next = rows[pred[end] as int] as int;
    if t > 0 {
        let u = (t - 1) as nat;
        lemma_path_shift(rows, pred, end, u);
        assert(path_col(rows, pred, end, t + 1) == rows[pred[path_col(rows, pred, end, t)] as int] as int);
        assert(path_col(rows, pred, next, t) == rows[pred[path_col(rows, pred, next, u)] as int] as int);
    } else {
        assert(path_col(rows, pred, end, 1) == rows[pred[path_col(rows, pred, end, 0)] as int] as int);
    }
}

/// From any position of the list, `pred` leads back to `start` along
/// columns earlier and earlier in the list.
proof fn lemma_chain(
    cols: Seq<usize>,
    rows: Seq<usize>,
    pred: Seq<usize>,
    collist: Seq<usize>,
    lo: int,
    start: usize,
    q: int,
) -> (len: nat)
    requires
        cols.len() == rows.len() == pred.len() == collist.len(),
        is_permutation(collist, collist.len()),
        is_consistent_matching(cols, rows),
        forall|p: int| 0 <= p < lo && p < collist.len() ==> cols[#[trigger] collist[p] as int] != usize::MAX,
        chain_ok(collist, pred, cols, lo, start),
        0 <= q < collist.len(),
    ensures
        chain_path(cols, rows, pred, collist, start, collist[q] as int, len),
        len <= q + 1,
    decreases q,
{
    let c = collist[q] as int;
    lemma_col_pos(collist, q);
    assert(pred[collist[q] as int] == start || exists|p: int|
        0 <= p < q && p < lo && pred[collist[q] as int] == cols[#[trigger] collist[p] as int]);
    if pred[c] == start {
        assert(path_col(rows, pred, c, 0) == c);
        1
    } else {
        let p = choose|p: int| 0 <= p < q && p < lo && pred[collist[q] as int] == cols[#[trigger] collist[p] as int];
        let c2 = collist[p] as int;
        assert(cols[c2] != usize::MAX);
        assert(rows[cols[c2] as int] == c2);
        assert(rows[pred[c] as int] as int == c2);
        lemma_col_pos(collist, p);
        let len2 = lemma_chain(cols, rows, pred, collist, lo, start, p);
        assert forall|t: nat| path_col(rows, pred, c, t + 1) == path_col(rows, pred, c2, t) by {
            lemma_path_shift(rows, pred, c, t);
        }
        assert(path_col(rows, pred, c, 0) == c);
        assert(path_col(rows, pred, c2, 0) == c2);
        let len = len2 + 1;
        assert(path_row(rows, pred, c, (len - 1) as nat) == path_row(rows, pred, c2, (len2 - 1) as nat)) by {
            assert(path_col(rows, pred, c, ((len2 - 1) as nat) + 1) == path_col(rows, pred, c2, (len2 - 1) as nat));
        }
        assert forall|t: nat| t < len implies 0 <= #[trigger] path_col(rows, pred, c, t) < collist.len() by {
            if t > 0 {
                assert(path_col(rows, pred, c, ((t - 1) as nat) + 1) == path_col(rows, pred, c2, (t - 1) as nat));
            }
        }
        assert forall|t: nat| t + 1 < len implies cols[path_col(rows, pred, c, t + 1)] == #[trigger] path_row(
            rows,
            pred,
            c,
            t,
        ) by {
            if t > 0 {
                let u = (t - 1) as nat;
                assert(path_col(rows, pred, c, u + 1) == path_col(rows, pred, c2, u));
                assert(path_col(rows, pred, c, t + 1) == path_col(rows, pred, c2, u + 1));
                assert(u + 1 < len2);
                assert(cols[path_col(rows, pred, c2, u + 1)] == path_row(rows, pred, c2, u));
            } else {
                assert(path_col(rows, pred, c, 0 + 1) == path_col(rows, pred, c2, 0));
            }
        }
        assert forall|s: nat, t: nat| s < t < len implies col_pos(
            collist,
            #[trigger] path_col(rows, pred, c, t),
        ) < col_pos(collist, #[trigger] path_col(rows, pred, c, s)) by {
            let u = (t - 1) as nat;
            assert(path_col(rows, pred, c, u + 1) == path_col(rows, pred, c2, u));
            if s == 0 {
                if u > 0 {
                    assert(col_pos(collist, path_col(rows, pred, c2, u)) < col_pos(
                        collist,
                        path_col(rows, pred, c2, 0),
                    ));
                }
            } else {
                let v = (s - 1) as nat;
                assert(path_col(rows, pred, c, v + 1) == path_col(rows, pred, c2, v));
                assert(col_pos(collist, path_col(rows, pred, c2, u)) < col_pos(
                    collist,
                    path_col(rows, pred, c2, v),
                ));
            }
        }
        len
    }
}

/// An unmatched column at any position of the list ends an augmenting path
/// back to `start`, when `start` itself is unmatched.
pub proof fn lemma_found_path(
    cols: Seq<usize>,
    rows: Seq<usize>,
    pred: Seq<usize>,
    collist: Seq<usize>,
    lo: int,
    start: usize,
    q: int,
)
    requires
        cols.len() == rows.len() == pred.len() == collist.len(),
        collist.len() <= usize::MAX,
        is_permutation(collist, collist.len()),
        is_consistent_matching(cols, rows),
        forall|j: int| 0 <= j < cols.len() ==> #[trigger] cols[j] != start,
        forall|c: int| 0 <= c < pred.len() ==> #[trigger] pred[c] < pred.len(),
        forall|p: int| 0 <= p < lo && p < collist.len() ==> cols[#[trigger] collist[p] as int] != usize::MAX,
        chain_ok(collist, pred, cols, lo, start),
        0 <= q < collist.len(),
        cols[collist[q] as int] == usize::MAX,
    ensures
        exists|len: nat| is_augmenting_path(cols, rows, pred, start, collist[q] as int, len),
{
    let k = collist.len();
    let e = collist[q] as int;
    let len = lemma_chain(cols, rows, pred, collist, lo, start, q);
    assert(path_col(rows, pred, e, 0) == e);
    assert forall|s: nat, t: nat| s < t < len implies #[trigger] path_row(rows, pred, e, s) != #[trigger] path_row(
        rows,
        pred,
        e,
        t,
    ) by {
        let cs = path_col(rows, pred, e, s + 1);
        assert(cols[cs] == path_row(rows, pred, e, s));
        assert(0 <= path_col(rows, pred, e, s) < k);
        assert(path_row(rows, pred, e, s) < k);
        if t + 1 < len {
            let ct = path_col(rows, pred, e, t + 1);
            assert(cols[ct] == path_row(rows, pred, e, t));
            assert(0 <= path_col(rows, pred, e, t) < k);
            assert(col_pos(collist, ct) < col_pos(collist, cs));
            if cols[cs] == cols[ct] {
                assert(rows[cols[cs] as int] == cs);
                assert(rows[cols[ct] as int] == ct);
            }
        } else {
            assert(0 <= cs < k);
            assert(cols[cs] != start);
        }
    }
    assert forall|s: nat, t: nat| s < t < len implies #[trigger] path_col(rows, pred, e, s) != #[trigger] path_col(
        rows,
        pred,
        e,
        t,
    ) by {
        assert(col_pos(collist, path_col(rows, pred, e, t)) < col_pos(collist, path_col(rows, pred, e, s)));
    }
    assert(is_augmenting_path(cols, rows, pred, start, e, len));
}

/// A consistent matching that gives every column of `0..k` a row matches
/// every row of `0..k`.
pub proof fn lemma_all_columns_matched(cols: Seq<usize>, rows: Seq<usize>)
    requires
        cols.len() == rows.len(),
        is_consistent_matching(cols, rows),
        forall|j: int| 0 <= j < cols.len() ==> #[trigger] cols[j] != usize::MAX,
    ensures
        forall|r: usize| r < cols.len() ==> #[trigger] is_matched(cols, r),
{
    let k = cols.len() as int;
    let dom = set_int_range(0, k);
    let f = |j: int| cols[j] as int;
    lemma_int_range(0, k);
    assert(injective_on(f, dom)) by {
        assert forall|x: int, y: int| dom.contains(x) && dom.contains(y) && #[trigger] f(x) == #[trigger] f(
            y,
        ) implies x == y by {
            assert(rows[cols[x] as int] == x);
            assert(rows[cols[y] as int] == y);
        }
    }
    let image = dom.map(f);
    lemma_map_size(dom, image, f);
    assert(image.subset_of(dom)) by {
        assert forall|r: int| image.contains(r) implies dom.contains(r) by {
            let j = choose|j: int| dom.contains(j) && f(j) == r;
            assert(cols[j] < rows.len());
        }
    }
    lemma_subset_equality(image, dom);
    assert forall|r: usize| r < cols.len() implies #[trigger] is_matched(cols, r) by {
        assert(dom.contains(r as int));
        assert(image.contains(r as int));
        let j = choose|j: int| dom.contains(j) && f(j) == r as int;
        assert(cols[j] == r);
    }
}

/// Exchanging two entries at or after position `lo` keeps every column's
/// reason for its `pred`.
proof fn lemma_chain_swap(
    collist: Seq<usize>,
    pred: Seq<usize>,
    cols: Seq<usize>,
    lo: int,
    start: usize,
    a: int,
    b: int,
)
    requires
        chain_ok(collist, pred, cols, lo, start),
        0 <= lo <= a < collist.len(),
        lo <= b < collist.len(),
    ensures
        chain_ok(swap_at(collist, a, b), pred, cols, lo, start),
{
    let s2 = swap_at(collist, a, b);
    assert forall|q: int| 0 <= q < s2.len() implies #[trigger] pred[s2[q] as int] == start || exists|p: int|
        0 <= p < q && p < lo && pred[s2[q] as int] == cols[#[trigger] s2[p] as int] by {
        let q0 = if q == a {
            b
        } else if q == b {
            a
        } else {
            q
        };
        assert(s2[q] == collist[q0]);
        assert(pred[collist[q0] as int] == start || exists|p: int|
            0 <= p < q0 && p < lo && pred[collist[q0] as int] == cols[#[trigger] collist[p] as int]);
        if pred[s2[q] as int] != start {
            let p = choose|p: int| 0 <= p < q0 && p < lo && pred[collist[q0] as int] == cols[#[trigger] collist[p] as int];
            assert(s2[p] == collist[p]);
        }
    }
}

/// Reaching the column at position `idx >= lo` from the row of the column
/// scanned last keeps every column's reason for its `pred`.
proof fn lemma_chain_relax(
    collist: Seq<usize>,
    pred: Seq<usize>,
    cols: Seq<usize>,
    lo: int,
    start: usize,
    idx: int,
)
    requires
        chain_ok(collist, pred, cols, lo, start),
        is_permutation(collist, collist.len()),
        pred.len() == collist.len(),
        1 <= lo <= idx < collist.len(),
    ensures
        chain_ok(
            collist,
            pred.update(collist[idx] as int, cols[collist[lo - 1] as int]),
            cols,
            lo,
            start,
        ),
{
    let pred2 = pred.update(collist[idx] as int, cols[collist[lo - 1] as int]);
    assert forall|q: int| 0 <= q < collist.len() implies #[trigger] pred2[collist[q] as int] == start || exists|p: int|
        0 <= p < q && p < lo && pred2[collist[q] as int] == cols[#[trigger] collist[p] as int] by {
        if q == idx {
            assert(pred2[collist[q] as int] == cols[collist[lo - 1] as int]);
        } else {
            assert(collist[q] != collist[idx]);
            assert(pred2[collist[q] as int] == pred[collist[q] as int]);
            assert(pred[collist[q] as int] == start || exists|p: int|
                0 <= p < q && p < lo && pred[collist[q] as int] == cols[#[trigger] collist[p] as int]);
        }
    }
}

proof fn lemma_identity_is_permutation(k: nat)
    requires
        k <= usize::MAX,
    ensures
        is_permutation(identity_perm(k), k),
{
    let s = identity_perm(k);
    assert forall|v: usize| v < k implies #[trigger] occurs_in(v, s, k) by {
        assert(s[v as int] == v);
    }
}

/// The columns that find the least distance again: going through the list
/// from position `idx` on, a column whose distance is at most the least so
/// far (`le`) joins the segment that ends before `hi`, and one whose
/// distance is below it (`lt`) starts the segment afresh at `lo`; a column
/// joins by exchanging places with the one at the segment's end. Gives the
/// list and the segment's end.
pub open spec fn segment_build(
    s: Seq<usize>,
    lo: int,
    hi: int,
    idx: int,
    le: Seq<bool>,
    lt: Seq<bool>,
) -> (Seq<usize>, int)
    decreases s.len() - idx,
{
    if idx >= s.len() || !(0 <= lo <= hi <= idx) {
        (s, hi)
    } else if le[idx] {
        let h = if lt[idx] {
            lo
        } else {
            hi
        };
        segment_build(swap_at(s, h, idx), lo, h + 1, idx + 1, le, lt)
    } else {
        segment_build(s, lo, hi, idx + 1, le, lt)
    }
}

/// The least of the distances `d` of the columns at positions `lo..n` of
/// the list `s`.
pub open spec fn least_from(d: Seq<int>, s: Seq<usize>, lo: int, n: int) -> int
    decreases n - lo,
{
    if n <= lo + 1 {
        d[s[lo] as int]
    } else {
        let a = least_from(d, s, lo, n - 1);
        let b = d[s[n - 1] as int];
        if b < a {
            b
        } else {
            a
        }
    }
}

/// The comparisons `le`, `lt` are those of each column's distance, at its
/// own position `idx` of the list, against the least distance of the
/// columns before it from position `lo` on: at most (`le`) and below
/// (`lt`).
pub open spec fn comparisons_follow(
    d: Seq<int>,
    s: Seq<usize>,
    lo: int,
    le: Seq<bool>,
    lt: Seq<bool>,
) -> bool {
    forall|idx: int|
        lo < idx < s.len() ==> {
            &&& #[trigger] le[idx] == (d[s[idx] as int] <= least_from(d, s, lo, idx))
            &&& lt[idx] == (d[s[idx] as int] < least_from(d, s, lo, idx))
        }
}

/// The least distance is at most every distance from position `lo` on.
proof fn lemma_least_from(d: Seq<int>, s: Seq<usize>, lo: int, n: int)
    requires
        lo < n,
    ensures
        forall|q: int| lo <= q < n ==> least_from(d, s, lo, n) <= d[#[trigger] s[q] as int],
    decreases n - lo,
{
    if n > lo + 1 {
        lemma_least_from(d, s, lo, n - 1);
    }
}

/// Column `x` is at one of the positions `lo..hi` of `s`.
pub open spec fn found_in(x: usize, s: Seq<usize>, lo: int, hi: int) -> bool {
    exists|q: int| lo <= q < hi && s[q] == x
}

/// Positions `lo..n` of `s` hold the columns at positions `lo..n` of `s0`,
/// in some order.
#[verifier::opaque]
spec fn rearranged(s: Seq<usize>, s0: Seq<usize>, lo: int, n: int) -> bool {
    &&& forall|p: int| lo <= p < n ==> #[trigger] found_in(s[p], s0, lo, n)
    &&& forall|q: int| lo <= q < n ==> #[trigger] found_in(s0[q], s, lo, n)
}

/// The segment `lo..hi` holds distance `m`, the rest of `lo..n` more.
#[verifier::opaque]
spec fn gathered(d: Seq<int>, s: Seq<usize>, lo: int, hi: int, n: int, m: int) -> bool {
    &&& forall|p: int| lo <= p < hi ==> d[#[trigger] s[p] as int] == m
    &&& forall|p: int| hi <= p < n ==> d[#[trigger] s[p] as int] > m
}

proof fn lemma_rearranged_start(s: Seq<usize>, lo: int)
    ensures
        rearranged(s, s, lo, lo + 1),
{
    reveal(rearranged);
    assert(found_in(s[lo], s, lo, lo + 1)) by {
        assert(s[lo] == s[lo]);
    }
}

/// Taking position `idx` in, exchanged with position `h`, keeps the range
/// a rearrangement.
proof fn lemma_rearranged_swap(s: Seq<usize>, s0: Seq<usize>, lo: int, idx: int, h: int)
    requires
        rearranged(s, s0, lo, idx),
        0 <= lo <= h <= idx < s.len(),
        s.len() == s0.len(),
        s[idx] == s0[idx],
    ensures
        rearranged(swap_at(s, h, idx), s0, lo, idx + 1),
{
    reveal(rearranged);
    let s1 = swap_at(s, h, idx);
    assert(s1[h] == s[idx]);
    assert(s1[idx] == s[h]);
    assert forall|p: int| lo <= p < idx + 1 implies #[trigger] found_in(s1[p], s0, lo, idx + 1) by {
        if p == h {
            assert(s0[idx] == s1[p]);
        } else {
            let pp = if p == idx {
                h
            } else {
                p
            };
            assert(s1[p] == s[pp]);
            if pp == idx {
                assert(s0[idx] == s1[p]);
            } else {
                assert(found_in(s[pp], s0, lo, idx));
                let q = choose|q: int| lo <= q < idx && s0[q] == s[pp];
                assert(s0[q] == s1[p]);
            }
        }
    }
    assert forall|q: int| lo <= q < idx + 1 implies #[trigger] found_in(s0[q], s1, lo, idx + 1) by {
        if q == idx {
            assert(s1[h] == s0[q]);
        } else {
            assert(found_in(s0[q], s, lo, idx));
            let p = choose|p: int| lo <= p < idx && s[p] == s0[q];
            if p == h {
                assert(s1[idx] == s0[q]);
            } else {
                assert(s1[p] == s[p]);
                assert(s1[p] == s0[q]);
            }
        }
    }
}

/// Taking position `idx` in unchanged keeps the range a rearrangement.
proof fn lemma_rearranged_keep(s: Seq<usize>, s0: Seq<usize>, lo: int, idx: int)
    requires
        rearranged(s, s0, lo, idx),
        0 <= lo <= idx < s.len(),
        s.len() == s0.len(),
        s[idx] == s0[idx],
    ensures
        rearranged(s, s0, lo, idx + 1),
{
    reveal(rearranged);
    assert forall|p: int| lo <= p < idx + 1 implies #[trigger] found_in(s[p], s0, lo, idx + 1) by {
        if p == idx {
            assert(s0[idx] == s[p]);
        } else {
            assert(found_in(s[p], s0, lo, idx));
            let q = choose|q: int| lo <= q < idx && s0[q] == s[p];
            assert(s0[q] == s[p]);
        }
    }
    assert forall|q: int| lo <= q < idx + 1 implies #[trigger] found_in(s0[q], s, lo, idx + 1) by {
        if q == idx {
            assert(s[idx] == s0[q]);
        } else {
            assert(found_in(s0[q], s, lo, idx));
            let p = choose|p: int| lo <= p < idx && s[p] == s0[q];
            assert(s[p] == s0[q]);
        }
    }
}

/// One step of gathering the least-distance columns keeps: the positions
/// outside `lo..idx` untouched, the columns at positions `lo..idx` those
/// that were there, the segment `lo..hi` at the least distance so far and
/// the columns after it above it.
proof fn lemma_segment_gather(
    d: Seq<int>,
    s0: Seq<usize>,
    s: Seq<usize>,
    lo: int,
    hi: int,
    idx: int,
    le: Seq<bool>,
    lt: Seq<bool>,
)
    requires
        0 <= lo < hi <= idx <= s0.len(),
        s.len() == s0.len(),
        le.len() == s0.len(),
        lt.len() == s0.len(),
        comparisons_follow(d, s0, lo, le, lt),
        forall|p: int| 0 <= p < s.len() && (p < lo || idx <= p) ==> #[trigger] s[p] == s0[p],
        rearranged(s, s0, lo, idx),
        gathered(d, s, lo, hi, idx, least_from(d, s0, lo, idx)),
    ensures
        ({
            let (s2, h2) = segment_build(s, lo, hi, idx, le, lt);
            let n = s0.len() as int;
            &&& s2.len() == s0.len()
            &&& lo < h2 <= n
            &&& forall|p: int| 0 <= p < lo ==> #[trigger] s2[p] == s0[p]
            &&& rearranged(s2, s0, lo, n)
            &&& gathered(d, s2, lo, h2, n, least_from(d, s0, lo, n))
        }),
    decreases s0.len() - idx,
{
    let n = s0.len() as int;
    if idx >= n {
        return;
    }
    let m = least_from(d, s0, lo, idx);
    let c = s0[idx];
    let v = d[c as int];
    assert(s[idx] == c);
    let m2 = least_from(d, s0, lo, idx + 1);
    assert(m2 == if v < m {
        v
    } else {
        m
    });
    assert(lo < idx < s0.len());
    assert(le[idx] == (d[s0[idx] as int] <= least_from(d, s0, lo, idx)));
    assert(lt[idx] == (d[s0[idx] as int] < least_from(d, s0, lo, idx)));
    if !le[idx] {
        lemma_rearranged_keep(s, s0, lo, idx);
        assert(gathered(d, s, lo, hi, idx + 1, m2)) by {
            reveal(gathered);
        }
        lemma_segment_gather(d, s0, s, lo, hi, idx + 1, le, lt);
    } else {
        let h = if lt[idx] {
            lo
        } else {
            hi
        };
        let s1 = swap_at(s, h, idx);
        lemma_rearranged_swap(s, s0, lo, idx, h);
        assert forall|p: int| 0 <= p < s1.len() && (p < lo || idx + 1 <= p) implies #[trigger] s1[p]
            == s0[p] by {
            assert(s1[p] == s[p]);
        }
        if lt[idx] {
            assert(gathered(d, s1, lo, lo + 1, idx + 1, m2)) by {
                reveal(gathered);
                assert(s1[lo] == c);
                assert forall|p: int| lo + 1 <= p < idx + 1 implies d[#[trigger] s1[p] as int] > m2 by {
                    if p == idx {
                        assert(s1[p] == s[lo]);
                    } else {
                        assert(s1[p] == s[p]);
                    }
                }
            }
            lemma_segment_gather(d, s0, s1, lo, lo + 1, idx + 1, le, lt);
        } else {
            assert(gathered(d, s1, lo, hi + 1, idx + 1, m2)) by {
                reveal(gathered);
                assert forall|p: int| lo <= p < hi + 1 implies d[#[trigger] s1[p] as int] == m2 by {
                    if p == hi {
                        assert(s1[p] == c);
                    } else {
                        assert(s1[p] == s[p]);
                    }
                }
                assert forall|p: int| hi + 1 <= p < idx + 1 implies d[#[trigger] s1[p] as int] > m2 by {
                    if p == idx {
                        assert(s1[p] == s[hi]);
                    } else {
                        assert(s1[p] == s[p]);
                    }
                }
            }
            lemma_segment_gather(d, s0, s1, lo, hi + 1, idx + 1, le, lt);
        }
    }
}

/// Gathering the ready segment collects exactly the columns at the least
/// distance: whatever the distances `d` of the columns, when the
/// comparisons are those of each column's distance against the least one
/// before it, the positions before `lo` are untouched, the columns from
/// `lo` on are only rearranged, and a column from position `lo` on ends in
/// the segment `lo..hi` exactly when its distance is the least one among
/// them; every column left after the segment is strictly farther.
pub proof fn lemma_ready_segment_least(
    d: Seq<int>,
    s: Seq<usize>,
    lo: int,
    le: Seq<bool>,
    lt: Seq<bool>,
)
    requires
        0 <= lo < s.len(),
        le.len() == s.len(),
        lt.len() == s.len(),
        comparisons_follow(d, s, lo, le, lt),
    ensures
        ({
            let (s2, h2) = segment_build(s, lo, lo + 1, lo + 1, le, lt);
            let n = s.len() as int;
            let m = least_from(d, s, lo, n);
            &&& s2.len() == s.len()
            &&& lo < h2 <= n
            &&& forall|q: int| lo <= q < n ==> m <= d[#[trigger] s[q] as int]
            &&& forall|p: int| 0 <= p < lo ==> #[trigger] s2[p] == s[p]
            &&& forall|p: int| lo <= p < n ==> #[trigger] found_in(s2[p], s, lo, n)
            &&& forall|q: int| lo <= q < n ==> #[trigger] found_in(s[q], s2, lo, n)
            &&& forall|p: int| lo <= p < h2 ==> d[#[trigger] s2[p] as int] == m
            &&& forall|p: int| h2 <= p < n ==> d[#[trigger] s2[p] as int] > m
            &&& forall|q: int|
                lo <= q < n ==> (d[#[trigger] s[q] as int] == m <==> found_in(s[q], s2, lo, h2))
        }),
{
    let n = s.len() as int;
    lemma_rearranged_start(s, lo);
    assert(least_from(d, s, lo, lo + 1) == d[s[lo] as int]);
    assert(gathered(d, s, lo, lo + 1, lo + 1, least_from(d, s, lo, lo + 1))) by {
        reveal(gathered);
    }
    lemma_segment_gather(d, s, s, lo, lo + 1, lo + 1, le, lt);
    lemma_least_from(d, s, lo, n);
    let (s2, h2) = segment_build(s, lo, lo + 1, lo + 1, le, lt);
    let m = least_from(d, s, lo, n);
    reveal(rearranged);
    reveal(gathered);
    assert forall|q: int| lo <= q < n implies (d[#[trigger] s[q] as int] == m <==> found_in(
        s[q],
        s2,
        lo,
        h2,
    )) by {
        assert(found_in(s[q], s2, lo, n));
        let p = choose|p: int| lo <= p < n && s2[p] == s[q];
        if d[s[q] as int] == m {
            assert(d[s2[p] as int] == m);
            assert(p < h2);
        }
        if found_in(s[q], s2, lo, h2) {
            let p2 = choose|p2: int| lo <= p2 < h2 && s2[p2] == s[q];
            assert(d[s2[p2] as int] == m);
        }
    }
}

/// The last unmatched column among positions `lo..hi` of the list.
pub open spec fn last_unmatched(cols: Seq<usize>, s: Seq<usize>, lo: int, hi: int) -> Option<usize>
    decreases hi - lo,
{
    if hi <= lo {
        None
    } else if cols[s[hi - 1] as int] == usize::MAX {
        Some(s[hi - 1])
    } else {
        last_unmatched(cols, s, lo, hi - 1)
    }
}

/// Writes `x` at position `i` of `v`.
pub(crate) fn set_entry(v: &mut Vec<usize>, i: usize, x: usize)
    requires
        i < old(v)@.len(),
    ensures
        final(v)@ == old(v)@.update(i as int, x),
    no_unwind
{
    v[i] = x;
}

/// The search ends at the unmatched column farthest along the ready
/// segment: `Some(c)` exactly when some column of positions `lo..hi` is
/// unmatched, `c` being the one at the last such position.
pub proof fn lemma_last_unmatched(cols: Seq<usize>, s: Seq<usize>, lo: int, hi: int)
    requires
        0 <= lo,
        hi <= s.len(),
        forall|p: int| lo <= p < hi ==> 0 <= #[trigger] s[p] < cols.len(),
    ensures
        last_unmatched(cols, s, lo, hi) is None <==> forall|p: int|
            lo <= p < hi ==> cols[#[trigger] s[p] as int] != usize::MAX,
        last_unmatched(cols, s, lo, hi) is Some ==> exists|p: int|
            lo <= p < hi && #[trigger] s[p] == last_unmatched(cols, s, lo, hi)->0 && cols[s[p] as int]
                == usize::MAX && forall|p2: int| p < p2 < hi ==> cols[#[trigger] s[p2] as int] != usize::MAX,
    decreases hi - lo,
{
    if hi > lo {
        lemma_last_unmatched(cols, s, lo, hi - 1);
        if cols[s[hi - 1] as int] == usize::MAX {
            assert(s[hi - 1] == last_unmatched(cols, s, lo, hi)->0);
        } else {
            if last_unmatched(cols, s, lo, hi - 1) is Some {
                let p = choose|p: int|
                    lo <= p < hi - 1 && #[trigger] s[p] == last_unmatched(cols, s, lo, hi - 1)->0
                        && cols[s[p] as int] == usize::MAX && forall|p2: int|
                        p < p2 < hi - 1 ==> cols[#[trigger] s[p2] as int] != usize::MAX;
                assert(forall|p2: int| p < p2 < hi ==> cols[#[trigger] s[p2] as int] != usize::MAX);
            }
        }
    }
}

/// The state of one shortest-path search from the free row `start`, over a
/// matching (`in_col`, `in_row`) that stays fixed while it runs.
pub struct PathSearch {
    collist: Vec<usize>,
    pred: Vec<usize>,
    lo: usize,
    hi: usize,
    n_ready: usize,
    start: usize,
    found: Option<usize>,
    cols: Ghost<Seq<usize>>,
    rows: Ghost<Seq<usize>>,
}

impl PathSearch {
    /// The column list.
    pub closed spec fn columns(&self) -> Seq<usize> {
        self.collist@
    }

    /// The row each column was last reached from.
    pub closed spec fn preds(&self) -> Seq<usize> {
        self.pred@
    }

    /// End of the scanned segment.
    pub closed spec fn spec_lo(&self) -> nat {
        self.lo as nat
    }

    /// End of the ready segment.
    pub closed spec fn spec_hi(&self) -> nat {
        self.hi as nat
    }

    /// Start of the latest ready segment: the columns before it are the
    /// ones whose distance is final.
    pub closed spec fn spec_n_ready(&self) -> nat {
        self.n_ready as nat
    }

    /// The free row the search starts from.
    pub closed spec fn spec_start(&self) -> usize {
        self.start
    }

    /// The unmatched column the search has reached, once it has.
    pub closed spec fn spec_found(&self) -> Option<usize> {
        self.found
    }

    /// The matching's `in_col`.
    pub closed spec fn matched_cols(&self) -> Seq<usize> {
        self.cols@
    }

    /// The matching's `in_row`.
    pub closed spec fn matched_rows(&self) -> Seq<usize> {
        self.rows@
    }

    /// The list is a permutation of the columns split into the scanned,
    /// ready and still-to-do segments; the matching is consistent with
    /// `start` unmatched; the scanned columns (and, until a column is
    /// found, the ready ones) are matched; every column was reached from
    /// `start` or from the row of a column scanned before it; a found column
    /// ends an augmenting path back to `start`.
    #[verifier::type_invariant]
    closed spec fn inv(&self) -> bool {
        let k = self.collist@.len();
        let cols = self.cols@;
        let rows = self.rows@;
        &&& self.pred@.len() == k
        &&& cols.len() == k
        &&& rows.len() == k
        &&& self.start < k
        &&& is_permutation(self.collist@, k)
        &&& self.n_ready <= self.lo <= self.hi <= k
        &&& is_consistent_matching(cols, rows)
        &&& forall|j: int| 0 <= j < k ==> #[trigger] cols[j] != self.start
        &&& forall|r: int| 0 <= r < k ==> #[trigger] rows[r] < k
        &&& forall|c: int| 0 <= c < k ==> #[trigger] self.pred@[c] < k
        &&& forall|p: int|
            0 <= p < self.lo && p < k ==> cols[#[trigger] self.collist@[p] as int] != usize::MAX
        &&& self.found is None ==> forall|p: int|
            0 <= p < self.hi ==> cols[#[trigger] self.collist@[p] as int] != usize::MAX
        &&& chain_ok(self.collist@, self.pred@, cols, self.lo as int, self.start)
        &&& self.found is Some ==> {
            let e = self.found->0;
            &&& e < k
            &&& cols[e as int] == usize::MAX
            &&& exists|len: nat| is_augmenting_path(cols, rows, self.pred@, self.start, e as int, len)
        }
    }

    /// A search from the free row `start` over the matching
    /// (`in_col`, `in_row`): the list is `0, 1, …, k - 1`, every column is
    /// reached from `start`, and all segments are empty.
    pub fn new(start: usize, in_col: &Vec<usize>, in_row: &Vec<usize>) -> (s: PathSearch)
        requires
            in_col@.len() == in_row@.len(),
            start < in_col@.len(),
            is_consistent_matching(in_col@, in_row@),
            forall|j: int| 0 <= j < in_col@.len() ==> #[trigger] in_col@[j] != start,
            forall|r: int| 0 <= r < in_row@.len() ==> #[trigger] in_row@[r] < in_row@.len(),
        ensures
            s.columns() == identity_perm(in_col@.len() as nat),
            s.preds() == Seq::new(in_col@.len() as nat, |c: int| start),
            s.spec_lo() == 0,
            s.spec_hi() == 0,
            s.spec_n_ready() == 0,
            s.spec_start() == start,
            s.spec_found() is None,
            s.matched_cols() == in_col@,
            s.matched_rows() == in_row@,
    {
        let k = in_col.len();
        let mut collist: Vec<usize> = Vec::new();
        let mut pred: Vec<usize> = Vec::new();
        let mut j: usize = 0;
        while j < k
            invariant
                j <= k,
                collist@ == identity_perm(j as nat),
                pred@ == Seq::new(j as nat, |c: int| start),
            decreases k - j,
        {
            collist.push(j);
            pred.push(start);
            j = j + 1;
            proof {
                assert(collist@ =~= identity_perm(j as nat));
                assert(pred@ =~= Seq::new(j as nat, |c: int| start));
            }
        }
        proof {
            lemma_identity_is_permutation(k as nat);
            assert forall|q: int| 0 <= q < collist@.len() implies #[trigger] pred@[collist@[q] as int]
                == start || exists|p: int|
                0 <= p < q && p < 0 && pred@[collist@[q] as int] == in_col@[#[trigger] collist@[p] as int] by {
                assert(collist@[q] == q);
            }
        }
        PathSearch {
            collist,
            pred,
            lo: 0,
            hi: 0,
            n_ready: 0,
            start,
            found: None,
            cols: Ghost(in_col@),
            rows: Ghost(in_row@),
        }
    }

    /// The column at position `p` of the list.
    pub fn column(&self, p: usize) -> (c: usize)
        requires
            p < self.columns().len(),
        ensures
            c == self.columns()[p as int],
    {
        self.collist[p]
    }

    /// The column the search has ended at, if it has.
    pub fn found(&self) -> (r: Option<usize>)
        ensures
            r == self.spec_found(),
    {
        self.found
    }

    /// End of the scanned segment.
    pub fn lo(&self) -> (r: usize)
        ensures
            r == self.spec_lo(),
    {
        self.lo
    }

    /// End of the ready segment.
    pub fn hi(&self) -> (r: usize)
        ensures
            r == self.spec_hi(),
    {
        self.hi
    }

    /// Start of the latest ready segment.
    pub fn n_ready(&self) -> (r: usize)
        ensures
            r == self.spec_n_ready(),
    {
        self.n_ready
    }

    /// Starts a new ready segment once the previous one is scanned
    /// (`lo == hi`): the columns at the least distance among positions
    /// `lo..k` are gathered at positions `lo..hi`, going through the list
    /// with the caller's comparisons of each column's distance against the
    /// least so far (`le`: at most, `lt`: below; indexed by position). The
    /// search ends at the last unmatched column of the segment, if there is
    /// one. Returns the column it ends at, if it does.
    #[verifier::spinoff_prover]
    pub fn ready_segment(&mut self, in_col: &Vec<usize>, le: &Vec<bool>, lt: &Vec<bool>) -> (found:
        Option<usize>)
        requires
            old(self).spec_found() is None,
            in_col@ == old(self).matched_cols(),
            old(self).spec_lo() == old(self).spec_hi(),
            le@.len() == old(self).columns().len(),
            lt@.len() == old(self).columns().len(),
        ensures
            old(self).spec_lo() < old(self).columns().len(),
            ({
                let lo = old(self).spec_lo() as int;
                let (s2, h2) = segment_build(old(self).columns(), lo, lo + 1, lo + 1, le@, lt@);
                &&& final(self).columns() == s2
                &&& final(self).spec_hi() == h2
                &&& found == last_unmatched(in_col@, s2, lo, h2)
            }),
            forall|d: Seq<int>|
                #[trigger] comparisons_follow(
                    d,
                    old(self).columns(),
                    old(self).spec_lo() as int,
                    le@,
                    lt@,
                ) ==> {
                    let lo = old(self).spec_lo() as int;
                    let n = old(self).columns().len() as int;
                    let m = least_from(d, old(self).columns(), lo, n);
                    &&& forall|q: int| lo <= q < n ==> m <= d[#[trigger] old(self).columns()[q] as int]
                    &&& forall|q: int|
                        lo <= q < n ==> (d[#[trigger] old(self).columns()[q] as int] == m <==> found_in(
                            old(self).columns()[q],
                            final(self).columns(),
                            lo,
                            final(self).spec_hi() as int,
                        ))
                    &&& forall|p: int|
                        final(self).spec_hi() <= p < n ==> d[#[trigger] final(self).columns()[p] as int] > m
                },
            found is None <==> forall|p: int|
                old(self).spec_lo() <= p < final(self).spec_hi()
                    ==> in_col@[#[trigger] final(self).columns()[p] as int] != usize::MAX,
            found is Some ==> exists|p: int|
                old(self).spec_lo() <= p < final(self).spec_hi() && #[trigger] final(self).columns()[p]
                    == found->0 && forall|p2: int|
                    p < p2 < final(self).spec_hi() ==> in_col@[#[trigger] final(self).columns()[p2] as int]
                        != usize::MAX,
            final(self).spec_found() == found,
            final(self).spec_lo() == old(self).spec_lo(),
            final(self).spec_n_ready() == old(self).spec_lo(),
            final(self).preds() == old(self).preds(),
            final(self).spec_start() == old(self).spec_start(),
            final(self).matched_cols() == old(self).matched_cols(),
            final(self).matched_rows() == old(self).matched_rows(),
            found is Some ==> {
                &&& in_col@[found->0 as int] == usize::MAX
                &&& exists|len: nat|
                    is_augmenting_path(
                        in_col@,
                        final(self).matched_rows(),
                        final(self).preds(),
                        final(self).spec_start(),
                        found->0 as int,
                        len,
                    )
            },
    {
        proof {
            use_type_invariant(&*self);
        }
        let k = self.collist.len();
        let lo = self.lo;
        proof {
            if lo == k {
                assert forall|j: int| 0 <= j < k implies #[trigger] self.cols@[j] != usize::MAX by {
                    assert(occurs_in(j as usize, self.collist@, k as nat));
                    let p = choose|p: int| 0 <= p < k && #[trigger] self.collist@[p] == j as usize;
                    assert(self.cols@[self.collist@[p] as int] != usize::MAX);
                }
                lemma_all_columns_matched(self.cols@, self.rows@);
                assert(is_matched(self.cols@, self.start));
                let j = choose|j: int| 0 <= j < k && self.cols@[j] == self.start;
                assert(self.cols@[j] != self.start);
            }
        }
        self.n_ready = lo;
        let mut hi = lo + 1;
        let mut idx = lo + 1;
        while idx < k
            invariant
                self.collist@.len() == k,
                lo < k,
                lo == self.lo,
                self.hi == lo,
                self.n_ready == lo,
                self.found is None,
                self.pred@ == old(self).pred@,
                self.start == old(self).start,
                self.cols == old(self).cols,
                self.rows == old(self).rows,
                lo < hi <= idx <= k,
                le@.len() == k,
                lt@.len() == k,
                segment_build(self.collist@, lo as int, hi as int, idx as int, le@, lt@)
                    == segment_build(old(self).collist@, lo as int, lo + 1, lo + 1, le@, lt@),
            decreases k - idx,
        {
            proof {
                use_type_invariant(&*self);
            }
            if le[idx] {
                if lt[idx] {
                    hi = lo;
                }
                proof {
                    lemma_chain_swap(self.collist@, self.pred@, self.cols@, lo as int, self.start, hi as int, idx as int);
                }
                hi = promote_column(&mut self.collist, idx, hi);
            }
            idx = idx + 1;
        }
        proof {
            use_type_invariant(&*self);
        }
        let mut found: Option<usize> = None;
        let mut fpos: usize = lo;
        let mut p = lo;
        while p < hi
            invariant
                self.collist@.len() == k,
                in_col@.len() == k,
                is_permutation(self.collist@, k as nat),
                self.cols@ == in_col@,
                lo <= p <= hi <= k,
                found is Some ==> in_col@[found->0 as int] == usize::MAX,
                found == last_unmatched(in_col@, self.collist@, lo as int, p as int),
                found is Some ==> lo <= fpos < p && self.collist@[fpos as int] == found->0,
                found is None ==> forall|q: int|
                    lo <= q < p ==> in_col@[#[trigger] self.collist@[q] as int] != usize::MAX,
            decreases hi - p,
        {
            let j = self.collist[p];
            if in_col[j] == usize::MAX {
                found = Some(j);
                fpos = p;
            }
            p = p + 1;
        }
        proof {
            let s0 = old(self).collist@;
            let l = lo as int;
            assert forall|d: Seq<int>| #[trigger] comparisons_follow(d, s0, l, le@, lt@) implies {
                let n = s0.len() as int;
                let m = least_from(d, s0, l, n);
                &&& forall|q: int| l <= q < n ==> m <= d[#[trigger] s0[q] as int]
                &&& forall|q: int|
                    l <= q < n ==> (d[#[trigger] s0[q] as int] == m <==> found_in(
                        s0[q],
                        self.collist@,
                        l,
                        hi as int,
                    ))
                &&& forall|p: int| hi <= p < n ==> d[#[trigger] self.collist@[p] as int] > m
            } by {
                lemma_ready_segment_least(d, s0, l, le@, lt@);
            }
        }
        proof {
            let s2 = self.collist@;
            let l = lo as int;
            let h = hi as int;
            assert({
                &&& found is None <==> forall|p: int|
                    l <= p < h ==> in_col@[#[trigger] s2[p] as int] != usize::MAX
                &&& found is Some ==> exists|p: int|
                    l <= p < h && #[trigger] s2[p] == found->0 && forall|p2: int|
                        p < p2 < h ==> in_col@[#[trigger] s2[p2] as int] != usize::MAX
            }) by {
                assert forall|q: int| l <= q < h implies 0 <= #[trigger] s2[q] < in_col@.len() by {
                    assert(s2[q] < k);
                }
                lemma_last_unmatched(in_col@, s2, l, h);
            }
        }
        match found {
            Some(j) => {
                proof {
                    lemma_found_path(
                        self.cols@,
                        self.rows@,
                        self.pred@,
                        self.collist@,
                        lo as int,
                        self.start,
                        fpos as int,
                    );
                }
                self.found = Some(j);
                self.hi = hi;
            },
            None => {
                self.hi = hi;
            },
        }
        proof {
            if found is Some {
                let j = found->0;
                assert(self.found == Some(j));
                assert(in_col@[j as int] == usize::MAX);
                assert(exists|len: nat|
                    is_augmenting_path(in_col@, self.rows@, self.pred@, self.start, j as int, len));
                let len = choose|len: nat|
                    is_augmenting_path(in_col@, self.rows@, self.pred@, self.start, j as int, len);
                assert(is_augmenting_path(
                    in_col@,
                    self.matched_rows(),
                    self.preds(),
                    self.spec_start(),
                    found->0 as int,
                    len,
                ));
            }
        }
        found
    }

    /// Once the search has ended at an unmatched column, flips the path it
    /// found: every column on the path takes the row it was reached from,
    /// back to `start`. The flip always reaches `start` within `k` steps;
    /// afterwards the matching is still consistent, `start` is matched, and
    /// every other row is matched exactly when it was before.
    pub fn augment(&self, in_col: &mut Vec<usize>, in_row: &mut Vec<usize>)
        requires
            old(in_col)@ == self.matched_cols(),
            old(in_row)@ == self.matched_rows(),
            self.spec_found() is Some,
        ensures
            augment_run(
                old(in_col)@,
                old(in_row)@,
                self.preds(),
                self.spec_start(),
                self.spec_found()->0 as int,
                old(in_col)@.len() as nat,
            ) is Some,
            (final(in_col)@, final(in_row)@) == augment_run(
                old(in_col)@,
                old(in_row)@,
                self.preds(),
                self.spec_start(),
                self.spec_found()->0 as int,
                old(in_col)@.len() as nat,
            )->0,
            final(in_col)@.len() == old(in_col)@.len(),
            final(in_row)@.len() == old(in_row)@.len(),
            is_consistent_matching(final(in_col)@, final(in_row)@),
            is_matched(final(in_col)@, self.spec_start()),
            forall|r: usize|
                r < old(in_col)@.len() ==> (#[trigger] is_matched(final(in_col)@, r) <==> (is_matched(
                    old(in_col)@,
                    r,
                ) || r == self.spec_start())),
    {
        proof {
            use_type_invariant(self);
        }
        let end = self.found.unwrap();
        let reached = augment_path(in_col, in_row, &self.pred, self.start, end);
        proof {
            assert(reached);
        }
    }

    /// Takes the next ready column to scan, if any: the column at position
    /// `lo`, which then counts as scanned. `None` when the ready segment is
    /// used up (`lo == hi`).
    pub fn next_scan(&mut self) -> (col: Option<usize>)
        requires
            old(self).spec_found() is None,
        ensures
            col == (if old(self).spec_lo() < old(self).spec_hi() {
                Some(old(self).columns()[old(self).spec_lo() as int])
            } else {
                None::<usize>
            }),
            final(self).spec_lo() == (if old(self).spec_lo() < old(self).spec_hi() {
                old(self).spec_lo() + 1
            } else {
                old(self).spec_lo()
            }),
            final(self).columns() == old(self).columns(),
            final(self).preds() == old(self).preds(),
            final(self).spec_hi() == old(self).spec_hi(),
            final(self).spec_n_ready() == old(self).spec_n_ready(),
            final(self).spec_start() == old(self).spec_start(),
            final(self).spec_found() is None,
            final(self).matched_cols() == old(self).matched_cols(),
            final(self).matched_rows() == old(self).matched_rows(),
    {
        proof {
            use_type_invariant(&*self);
        }
        if self.lo < self.hi {
            let j = self.collist[self.lo];
            self.lo = self.lo + 1;
            Some(j)
        } else {
            None
        }
    }

    /// One update of the scan from the column scanned last (at position
    /// `lo - 1`), whose row is `i`, to the still-to-do column `j` at
    /// position `idx`. When the caller found the distance through `i` lower
    /// than `j`'s (`decreased`), `j` is now reached from `i`; if that
    /// distance is also the current least one (`at_min`), the search ends
    /// at `j` when `j` is unmatched, and otherwise `j` joins the ready
    /// segment by exchanging places with the column at position `hi`.
    /// Returns the column the search ends at, if it does.
    #[verifier::spinoff_prover]
    pub fn relax(&mut self, in_col: &Vec<usize>, idx: usize, decreased: bool, at_min: bool) -> (found:
        Option<usize>)
        requires
            old(self).spec_found() is None,
            in_col@ == old(self).matched_cols(),
            0 < old(self).spec_lo(),
            old(self).spec_hi() <= idx < old(self).columns().len(),
        ensures
            ({
                let j = old(self).columns()[idx as int];
                let i = in_col@[old(self).columns()[old(self).spec_lo() - 1] as int];
                let ends = decreased && at_min && in_col@[j as int] == usize::MAX;
                let joins = decreased && at_min && in_col@[j as int] != usize::MAX;
                &&& final(self).preds() == (if decreased {
                    old(self).preds().update(j as int, i)
                } else {
                    old(self).preds()
                })
                &&& found == (if ends {
                    Some(j)
                } else {
                    None::<usize>
                })
                &&& final(self).columns() == (if joins {
                    swap_at(old(self).columns(), old(self).spec_hi() as int, idx as int)
                } else {
                    old(self).columns()
                })
                &&& final(self).spec_hi() == (if joins {
                    old(self).spec_hi() + 1
                } else {
                    old(self).spec_hi()
                })
            }),
            final(self).spec_found() == found,
            final(self).spec_lo() == old(self).spec_lo(),
            final(self).spec_n_ready() == old(self).spec_n_ready(),
            final(self).spec_start() == old(self).spec_start(),
            final(self).matched_cols() == old(self).matched_cols(),
            final(self).matched_rows() == old(self).matched_rows(),
            found is Some ==> {
                &&& in_col@[found->0 as int] == usize::MAX
                &&& exists|len: nat|
                    is_augmenting_path(
                        in_col@,
                        final(self).matched_rows(),
                        final(self).preds(),
                        final(self).spec_start(),
                        found->0 as int,
                        len,
                    )
            },
    {
        proof {
            use_type_invariant(&*self);
        }
        let k = self.collist.len();
        let j = self.collist[idx];
        if decreased {
            let i = in_col[self.collist[self.lo - 1]];
            proof {
                lemma_chain_relax(self.collist@, self.pred@, self.cols@, self.lo as int, self.start, idx as int);
                assert(self.cols@[self.collist@[self.lo - 1] as int] != usize::MAX);
                assert(i < k);
                let p2 = self.pred@.update(j as int, i);
                assert(chain_ok(self.collist@, p2, self.cols@, self.lo as int, self.start));
                assert forall|c: int| 0 <= c < k implies #[trigger] p2[c] < k by {
                    if c != j {
                        assert(p2[c] == self.pred@[c]);
                    }
                }
            }
            set_entry(&mut self.pred, j, i);
            if at_min {
                if in_col[j] == usize::MAX {
                    proof {
                        lemma_found_path(
                            self.cols@,
                            self.rows@,
                            self.pred@,
                            self.collist@,
                            self.lo as int,
                            self.start,
                            idx as int,
                        );
                    }
                    self.found = Some(j);
                    proof {
                        assert(in_col@ == self.cols@);
                        assert(exists|len: nat|
                            is_augmenting_path(in_col@, self.rows@, self.pred@, self.start, j as int, len));
                    }
                    return Some(j);
                }
                let h0 = self.hi;
                proof {
                    lemma_chain_swap(self.collist@, self.pred@, self.cols@, self.lo as int, self.start, h0 as int, idx as int);
                }
                let h = promote_column(&mut self.collist, idx, h0);
                self.hi = h;
            }
        }
        None
    }
}


/// The augmentation phase: each row of `rows` in turn, from the first, is
/// matched along the path a search from it found.
pub struct Augmentation {
    rows: Vec<usize>,
    next: usize,
}

impl Augmentation {
    /// The rows of the phase.
    pub closed spec fn spec_rows(&self) -> Seq<usize> {
        self.rows@
    }

    /// How many rows are matched so far.
    pub closed spec fn spec_next(&self) -> nat {
        self.next as nat
    }

    /// The rows still to match.
    pub open spec fn remaining(&self) -> Seq<usize> {
        self.spec_rows().subrange(self.spec_next() as int, self.spec_rows().len() as int)
    }

    #[verifier::type_invariant]
    closed spec fn inv(&self) -> bool {
        self.next <= self.rows@.len() <= usize::MAX
    }

    /// A phase over the free rows `rows`.
    pub fn new(rows: Vec<usize>) -> (s: Augmentation)
        ensures
            s.spec_rows() == rows@,
            s.spec_next() == 0,
            s.remaining() == rows@,
    {
        let n = rows.len();
        assert(rows@.len() == n);
        let s = Augmentation { rows, next: 0 };
        assert(s.remaining() =~= rows@);
        s
    }

    /// The next row to match, if any.
    pub fn next_row(&self) -> (r: Option<usize>)
        ensures
            r == (if self.spec_next() < self.spec_rows().len() {
                Some(self.spec_rows()[self.spec_next() as int])
            } else {
                None::<usize>
            }),
            r is None ==> self.remaining().len() == 0,
    {
        proof {
            use_type_invariant(self);
        }
        if self.next < self.rows.len() {
            Some(self.rows[self.next])
        } else {
            None
        }
    }

    /// Matches the next row along the path `search` found from it. When
    /// the rows still to match were exactly the unmatched ones, the rows
    /// left afterwards are exactly the unmatched ones; the matching stays
    /// consistent.
    pub fn augment(&mut self, search: &PathSearch, in_col: &mut Vec<usize>, in_row: &mut Vec<usize>)
        requires
            old(self).spec_next() < old(self).spec_rows().len(),
            search.spec_start() == old(self).spec_rows()[old(self).spec_next() as int],
            search.spec_found() is Some,
            old(in_col)@ == search.matched_cols(),
            old(in_row)@ == search.matched_rows(),
        ensures
            final(self).spec_rows() == old(self).spec_rows(),
            final(self).spec_next() == old(self).spec_next() + 1,
            (final(in_col)@, final(in_row)@) == augment_run(
                old(in_col)@,
                old(in_row)@,
                search.preds(),
                search.spec_start(),
                search.spec_found()->0 as int,
                old(in_col)@.len() as nat,
            )->0,
            final(in_col)@.len() == old(in_col)@.len(),
            final(in_row)@.len() == old(in_row)@.len(),
            is_consistent_matching(final(in_col)@, final(in_row)@),
            free_rows_exact(old(in_col)@, old(self).remaining(), old(in_col)@.len() as nat)
                ==> free_rows_exact(final(in_col)@, final(self).remaining(), old(in_col)@.len() as nat),
    {
        proof {
            use_type_invariant(&*self);
        }
        let ghost col0 = in_col@;
        search.augment(in_col, in_row);
        self.next = self.next + 1;
        proof {
            let rest = self.remaining();
            let r0 = old(self).remaining();
            assert(r0 =~= seq![search.spec_start()] + rest);
            if free_rows_exact(col0, r0, col0.len() as nat) {
                lemma_augment_keeps_free_rows(col0, in_col@, search.spec_start(), rest, col0.len() as nat);
            }
        }
    }
}

/// The augmentation phase ends in a full matching: once no row is left to
/// match, and the rows left were kept exactly the unmatched ones, `in_col`
/// is a permutation of `0..k` and every column's row points back at it.
pub proof fn lemma_augmentation_complete(phase: &Augmentation, in_col: Seq<usize>, in_row: Seq<usize>)
    requires
        phase.remaining().len() == 0,
        in_col.len() == in_row.len(),
        in_col.len() <= usize::MAX,
        is_consistent_matching(in_col, in_row),
        free_rows_exact(in_col, phase.remaining(), in_col.len() as nat),
    ensures
        is_permutation(in_col, in_col.len() as nat),
        forall|j: int| 0 <= j < in_col.len() ==> in_row[#[trigger] in_col[j] as int] == j,
{
    lemma_no_free_rows_is_permutation(in_col, in_row, phase.remaining());
    assert forall|j: int| 0 <= j < in_col.len() implies in_row[#[trigger] in_col[j] as int] == j by {
        assert(in_col[j] < in_col.len());
    }
}

} // verus!
