//! What Heap's enumeration guarantees: every buffer it visits rearranges
//! the starting one, it visits each arrangement exactly once, and the net
//! effect of a whole pass on the buffer.
use vstd::prelude::*;

use crate::heap::{heap_block_start, heap_blocks, heap_final, heap_perms, heap_swap_pos, swap_at};

verus! {

/// The first `n` entries of `a` are pairwise distinct.
pub open spec fn distinct_prefix(a: Seq<usize>, n: nat) -> bool {
    forall|i: int, j: int| 0 <= i < n && 0 <= j < n && i != j ==> a[i] != a[j]
}

/// The value `v` is among the first `n` entries of `a`.
pub open spec fn occurs_in(v: usize, a: Seq<usize>, n: nat) -> bool {
    exists|p: int| 0 <= p < n && #[trigger] a[p] == v
}

/// `q` rearranges the first `n` entries of `a` and agrees with it from
/// position `n` on: every value among the first `n` entries of either is
/// found among the first `n` entries of the other.
pub open spec fn rearranges(q: Seq<usize>, a: Seq<usize>, n: nat) -> bool {
    &&& q.len() == a.len()
    &&& n <= a.len()
    &&& forall|p: int| n <= p < a.len() ==> #[trigger] q[p] == a[p]
    &&& forall|p: int| 0 <= p < n ==> occurs_in(#[trigger] q[p], a, n)
    &&& forall|p: int| 0 <= p < n ==> occurs_in(#[trigger] a[p], q, n)
}

proof fn lemma_rearranges_refl(a: Seq<usize>, n: nat)
    requires
        n <= a.len(),
    ensures
        rearranges(a, a, n),
{
    assert forall|p: int| 0 <= p < n implies occurs_in(#[trigger] a[p], a, n) by {
        assert(a[p] == a[p]);
    }
}

pub proof fn lemma_rearranges_trans(q: Seq<usize>, s: Seq<usize>, a: Seq<usize>, n: nat)
    requires
        rearranges(q, s, n),
        rearranges(s, a, n),
    ensures
        rearranges(q, a, n),
{
    assert forall|p: int| 0 <= p < n implies occurs_in(#[trigger] q[p], a, n) by {
        assert(occurs_in(q[p], s, n));
        let p1 = choose|p1: int| 0 <= p1 < n && #[trigger] s[p1] == q[p];
        assert(occurs_in(s[p1], a, n));
        let p2 = choose|p2: int| 0 <= p2 < n && #[trigger] a[p2] == s[p1];
        assert(a[p2] == q[p]);
    }
    assert forall|p: int| 0 <= p < n implies occurs_in(#[trigger] a[p], q, n) by {
        assert(occurs_in(a[p], s, n));
        let p1 = choose|p1: int| 0 <= p1 < n && #[trigger] s[p1] == a[p];
        assert(occurs_in(s[p1], q, n));
        let p2 = choose|p2: int| 0 <= p2 < n && #[trigger] q[p2] == s[p1];
        assert(q[p2] == a[p]);
    }
}

proof fn lemma_rearranges_widen(q: Seq<usize>, a: Seq<usize>, n: nat)
    requires
        rearranges(q, a, n),
        n < a.len(),
    ensures
        rearranges(q, a, n + 1),
{
    assert forall|p: int| 0 <= p < n + 1 implies occurs_in(#[trigger] q[p], a, n + 1) by {
        if p == n {
            assert(a[p] == q[p]);
        } else {
            assert(occurs_in(q[p], a, n));
            let p2 = choose|p2: int| 0 <= p2 < n && #[trigger] a[p2] == q[p];
            assert(a[p2] == q[p]);
        }
    }
    assert forall|p: int| 0 <= p < n + 1 implies occurs_in(#[trigger] a[p], q, n + 1) by {
        if p == n {
            assert(q[p] == a[p]);
        } else {
            assert(occurs_in(a[p], q, n));
            let p2 = choose|p2: int| 0 <= p2 < n && #[trigger] q[p2] == a[p];
            assert(q[p2] == a[p]);
        }
    }
}

pub proof fn lemma_swap_rearranges(s: Seq<usize>, i: int, j: int, n: nat)
    requires
        n <= s.len(),
        0 <= i < n,
        0 <= j < n,
    ensures
        rearranges(swap_at(s, i, j), s, n),
        distinct_prefix(s, n) ==> distinct_prefix(swap_at(s, i, j), n),
{
    let t = swap_at(s, i, j);
    assert forall|p: int| 0 <= p < n implies occurs_in(#[trigger] t[p], s, n) by {
        if p == j {
            assert(s[i] == t[p]);
        } else if p == i {
            assert(s[j] == t[p]);
        } else {
            assert(s[p] == t[p]);
        }
    }
    assert forall|p: int| 0 <= p < n implies occurs_in(#[trigger] s[p], t, n) by {
        if p == i {
            assert(t[j] == s[p]);
        } else if p == j {
            assert(t[i] == s[p]);
        } else {
            assert(t[p] == s[p]);
        }
    }
    if distinct_prefix(s, n) {
        assert forall|x: int, y: int| 0 <= x < n && 0 <= y < n && x != y implies t[x] != t[y] by {
            let fx = if x == j { i } else if x == i { j } else { x };
            let fy = if y == j { i } else if y == i { j } else { y };
            assert(t[x] == s[fx]);
            assert(t[y] == s[fy]);
        }
    }
}

/// A level-`n` pass rearranges the buffer, keeps its first `n` entries
/// distinct when they were, and so does every buffer it emits.
pub proof fn lemma_heap_rearranges(n: nat, a: Seq<usize>)
    requires
        1 <= n <= a.len(),
    ensures
        rearranges(heap_final(n, a), a, n),
        distinct_prefix(a, n) ==> distinct_prefix(heap_final(n, a), n),
        forall|t: int|
            0 <= t < heap_perms(n, a).len() ==> rearranges(#[trigger] heap_perms(n, a)[t], a, n) && (
            distinct_prefix(a, n) ==> distinct_prefix(heap_perms(n, a)[t], n)),
    decreases n, n + 1,
{
    if n == 1 {
        lemma_rearranges_refl(a, n);
        assert(heap_perms(n, a)[0] == a);
    } else {
        lemma_heap_blocks_rearrange(n, a, n);
        assert(heap_perms(n, a) == heap_blocks(n, a, n));
        lemma_heap_block_start_rearranges(n, a, (n - 1) as nat);
        let s = heap_block_start(n, a, (n - 1) as nat);
        lemma_heap_rearranges((n - 1) as nat, s);
        lemma_rearranges_widen(heap_final((n - 1) as nat, s), s, (n - 1) as nat);
        lemma_rearranges_trans(heap_final((n - 1) as nat, s), s, a, n);
        if distinct_prefix(a, n) {
            lemma_distinct_after_pass((n - 1) as nat, s);
        }
    }
}

/// A pass at level `n - 1` keeps the first `n` entries distinct.
proof fn lemma_distinct_after_pass(m: nat, s: Seq<usize>)
    requires
        1 <= m < s.len(),
        distinct_prefix(s, m + 1),
    ensures
        distinct_prefix(heap_final(m, s), m + 1),
        forall|t: int|
            0 <= t < heap_perms(m, s).len() ==> distinct_prefix(#[trigger] heap_perms(m, s)[t], m + 1),
    decreases m, m + 2,
{
    lemma_heap_rearranges(m, s);
    let f = heap_final(m, s);
    assert(distinct_prefix(s, m));
    assert forall|i: int, j: int| 0 <= i < m + 1 && 0 <= j < m + 1 && i != j implies f[i] != f[j] by {
        if i == m && j < m {
            assert(occurs_in(f[j], s, m));
            let p2 = choose|p2: int| 0 <= p2 < m && #[trigger] s[p2] == f[j];
            assert(f[i] == s[m as int]);
        } else if j == m && i < m {
            assert(occurs_in(f[i], s, m));
            let p2 = choose|p2: int| 0 <= p2 < m && #[trigger] s[p2] == f[i];
            assert(f[j] == s[m as int]);
        }
    }
    assert forall|t: int| 0 <= t < heap_perms(m, s).len() implies distinct_prefix(
        #[trigger] heap_perms(m, s)[t],
        m + 1,
    ) by {
        let e = heap_perms(m, s)[t];
        assert forall|i: int, j: int| 0 <= i < m + 1 && 0 <= j < m + 1 && i != j implies e[i] != e[j] by {
            if i == m && j < m {
                assert(occurs_in(e[j], s, m));
                let p2 = choose|p2: int| 0 <= p2 < m && #[trigger] s[p2] == e[j];
                assert(e[i] == s[m as int]);
            } else if j == m && i < m {
                assert(occurs_in(e[i], s, m));
                let p2 = choose|p2: int| 0 <= p2 < m && #[trigger] s[p2] == e[i];
                assert(e[j] == s[m as int]);
            }
        }
    }
}

/// Block starts rearrange the buffer, keeping distinctness.
pub proof fn lemma_heap_block_start_rearranges(n: nat, a: Seq<usize>, b: nat)
    requires
        2 <= n <= a.len(),
        b < n,
    ensures
        rearranges(heap_block_start(n, a, b), a, n),
        distinct_prefix(a, n) ==> distinct_prefix(heap_block_start(n, a, b), n),
    decreases n, b,
{
    if b == 0 {
        lemma_rearranges_refl(a, n);
    } else {
        lemma_heap_block_start_rearranges(n, a, (b - 1) as nat);
        let prev = heap_block_start(n, a, (b - 1) as nat);
        lemma_heap_rearranges((n - 1) as nat, prev);
        let f = heap_final((n - 1) as nat, prev);
        lemma_rearranges_widen(f, prev, (n - 1) as nat);
        lemma_rearranges_trans(f, prev, a, n);
        let p = heap_swap_pos(n, (b - 1) as nat);
        lemma_swap_rearranges(f, p, n - 1, n);
        lemma_rearranges_trans(swap_at(f, p, n - 1), f, a, n);
        if distinct_prefix(a, n) {
            lemma_distinct_after_pass((n - 1) as nat, prev);
        }
    }
}

/// The buffers of the first `b` blocks rearrange the buffer.
pub proof fn lemma_heap_blocks_rearrange(n: nat, a: Seq<usize>, b: nat)
    requires
        2 <= n <= a.len(),
        b <= n,
    ensures
        forall|t: int|
            0 <= t < heap_blocks(n, a, b).len() ==> rearranges(#[trigger] heap_blocks(n, a, b)[t], a, n)
                && (distinct_prefix(a, n) ==> distinct_prefix(heap_blocks(n, a, b)[t], n)),
    decreases n, b,
{
    if b > 0 {
        lemma_heap_blocks_rearrange(n, a, (b - 1) as nat);
        lemma_heap_block_start_rearranges(n, a, (b - 1) as nat);
        let st = heap_block_start(n, a, (b - 1) as nat);
        lemma_heap_rearranges((n - 1) as nat, st);
        if distinct_prefix(a, n) {
            lemma_distinct_after_pass((n - 1) as nat, st);
        }
        let left = heap_blocks(n, a, (b - 1) as nat);
        let right = heap_perms((n - 1) as nat, st);
        assert(heap_blocks(n, a, b) == left + right);
        assert forall|t: int| 0 <= t < (left + right).len() implies rearranges(
            #[trigger] (left + right)[t],
            a,
            n,
        ) && (distinct_prefix(a, n) ==> distinct_prefix((left + right)[t], n)) by {
            if t < left.len() {
                assert((left + right)[t] == left[t]);
            } else {
                let e = right[t - left.len()];
                assert((left + right)[t] == e);
                lemma_rearranges_widen(e, st, (n - 1) as nat);
                lemma_rearranges_trans(e, st, a, n);
            }
        }
    }
}


/// The position whose entry a whole level-`n` pass brings to position `p`:
/// the pass leaves `a'[p] == a[pass_source(n, p)]`. Below `n = 2` nothing
/// moves; at `n = 2` the two entries swap; for odd `n` the first and last
/// entries swap; for even `n >= 4` the entries from `n - 3`, `n - 2`,
/// `1..n - 4`, `n - 1` and `0` land, in this order, on positions
/// `0, 1, 2..n - 3, n - 2, n - 1`.
pub open spec fn pass_source(n: nat, p: int) -> int {
    if p >= n || n < 2 {
        p
    } else if n == 2 {
        1 - p
    } else if n % 2 == 1 {
        if p == 0 {
            n - 1
        } else if p == n - 1 {
            0
        } else {
            p
        }
    } else {
        if p == 0 {
            n - 3
        } else if p == 1 {
            n - 2
        } else if p <= n - 3 {
            p - 1
        } else if p == n - 2 {
            n - 1
        } else {
            0
        }
    }
}

/// For even `n >= 4`: the position of the starting buffer whose entry
/// stands at position `p` at the start of block `b`.
pub open spec fn even_block_source(n: nat, b: nat, p: int) -> int {
    if b == 0 {
        p
    } else if p == 0 {
        if b % 2 == 1 {
            n - 1
        } else {
            0
        }
    } else if p == 1 {
        if b == 1 {
            1
        } else {
            n - 2
        }
    } else if p <= n - 3 {
        if p < b {
            p - 1
        } else {
            p
        }
    } else if p == n - 2 {
        if b == n - 1 {
            n - 3
        } else if b % 2 == 1 {
            0
        } else {
            n - 1
        }
    } else {
        if b == 1 {
            n - 2
        } else if b == n - 1 {
            0
        } else {
            b - 1
        }
    }
}

/// Exchange of the first and the last of `n` positions.
pub open spec fn swap_ends(n: nat, p: int) -> int {
    if p == 0 {
        n - 1
    } else if p == n - 1 {
        0
    } else {
        p
    }
}

/// Exchange of positions `i` and `j`.
pub open spec fn swap_pos(i: int, j: int, p: int) -> int {
    if p == i {
        j
    } else if p == j {
        i
    } else {
        p
    }
}

/// For odd `n`: where the entry at position `p` at the start of a block
/// came from at the start of the previous block.
pub open spec fn odd_step(n: nat, p: int) -> int {
    pass_source((n - 1) as nat, swap_ends(n, p))
}

/// For odd `n`: the position of the starting buffer whose entry stands at
/// position `p` at the start of block `b`.
pub open spec fn odd_block_source(n: nat, b: nat, p: int) -> int
    decreases b,
{
    if b == 0 {
        p
    } else {
        odd_block_source(n, (b - 1) as nat, odd_step(n, p))
    }
}

/// For odd `n`: the cycle that `odd_step` follows from position `n - 1`.
pub open spec fn odd_orbit(n: nat, t: int) -> int {
    if t == 0 {
        n - 1
    } else if t <= n - 4 {
        n - 3 - t
    } else if t <= n - 2 {
        t
    } else {
        0
    }
}

/// `odd_orbit` read modulo `n`, for `0 <= t < 2n`.
pub open spec fn odd_orbit2(n: nat, t: int) -> int {
    if t >= n {
        odd_orbit(n, t - n)
    } else {
        odd_orbit(n, t)
    }
}

/// The index along the cycle of position `x`.
pub open spec fn odd_orbit_index(n: nat, x: int) -> int {
    if x == n - 1 {
        0
    } else if x == 0 {
        n - 1
    } else if x <= n - 4 {
        n - 3 - x
    } else {
        x
    }
}

proof fn lemma_even_block_step(n: nat, b: nat, p: int)
    requires
        n >= 4,
        n % 2 == 0,
        b + 1 < n,
        0 <= p < n,
    ensures
        even_block_source(n, b + 1, p) == even_block_source(
            n,
            b,
            pass_source((n - 1) as nat, swap_pos(b as int, n - 1, p)),
        ),
{
}

proof fn lemma_even_final(n: nat, p: int)
    requires
        n >= 4,
        n % 2 == 0,
        0 <= p < n,
    ensures
        pass_source(n, p) == even_block_source(n, (n - 1) as nat, pass_source((n - 1) as nat, p)),
{
}

proof fn lemma_odd_orbit_step(n: nat, t: int)
    requires
        n >= 3,
        n % 2 == 1,
        0 <= t < 2 * n - 1,
    ensures
        odd_step(n, odd_orbit2(n, t)) == odd_orbit2(n, t + 1),
{
}

proof fn lemma_odd_orbit_index(n: nat, x: int)
    requires
        n >= 3,
        n % 2 == 1,
        0 <= x < n,
    ensures
        0 <= odd_orbit_index(n, x) < n,
        odd_orbit(n, odd_orbit_index(n, x)) == x,
{
}

proof fn lemma_odd_orbit_range(n: nat, t: int)
    requires
        n >= 3,
        0 <= t < n,
    ensures
        0 <= odd_orbit(n, t) < n,
        odd_orbit_index(n, odd_orbit(n, t)) == t,
{
}


/// Following `odd_step` `j` times from the `t`-th point of the cycle lands
/// on its `(t + j)`-th point.
proof fn lemma_odd_block_source_orbit(n: nat, j: nat, t: int)
    requires
        n >= 3,
        n % 2 == 1,
        0 <= t,
        t + j < 2 * n,
    ensures
        odd_block_source(n, j, odd_orbit2(n, t)) == odd_orbit2(n, t + j),
    decreases j,
{
    if j > 0 {
        lemma_odd_orbit_step(n, t);
        lemma_odd_block_source_orbit(n, (j - 1) as nat, t + 1);
    }
}

/// The net effect of a whole pass: the entry at position `p < n` after a
/// level-`n` pass is the one at `pass_source(n, p)` before it.
pub proof fn lemma_pass_source(n: nat, a: Seq<usize>)
    requires
        1 <= n <= a.len(),
    ensures
        forall|p: int| 0 <= p < n ==> #[trigger] heap_final(n, a)[p] == a[pass_source(n, p)],
    decreases n, n,
{
    if n == 2 {
        let s = heap_block_start(2, a, 1);
        assert(heap_block_start(2, a, 0) == a);
        assert(heap_final(1, a) == a);
        assert(heap_swap_pos(2, 0) == 0);
        assert(s == swap_at(a, 0, 1));
        assert(heap_final(2, a) == heap_final(1, s));
    } else if n >= 3 {
        let m = (n - 1) as nat;
        let s = heap_block_start(n, a, m);
        crate::heap::lemma_heap_block_start_frame(n, a, m);
        lemma_pass_source(m, s);
        crate::heap::lemma_heap_final_frame(m, s);
        assert(heap_final(n, a) == heap_final(m, s));
        if n % 2 == 0 {
            lemma_even_blocks(n, a, m);
            assert forall|p: int| 0 <= p < n implies #[trigger] heap_final(n, a)[p] == a[pass_source(
                n,
                p,
            )] by {
                lemma_even_final(n, p);
                assert(0 <= pass_source(m, p) < n);
            }
        } else {
            lemma_odd_blocks(n, a, m);
            assert forall|p: int| 0 <= p < n implies #[trigger] heap_final(n, a)[p] == a[pass_source(
                n,
                p,
            )] by {
                let y = swap_ends(n, p);
                assert(pass_source(m, p) == odd_step(n, y));
                assert(odd_block_source(n, n, y) == odd_block_source(n, m, odd_step(n, y)));
                lemma_odd_orbit_index(n, y);
                let t = odd_orbit_index(n, y);
                assert(odd_orbit2(n, t) == y);
                lemma_odd_block_source_orbit(n, n, t);
                assert(odd_orbit2(n, t + n) == y);
            }
        }
    }
}

/// Block starts of an even pass, position by position.
proof fn lemma_even_blocks(n: nat, a: Seq<usize>, b: nat)
    requires
        4 <= n <= a.len(),
        n % 2 == 0,
        b < n,
    ensures
        forall|p: int|
            0 <= p < n ==> #[trigger] heap_block_start(n, a, b)[p] == a[even_block_source(n, b, p)],
    decreases n, b,
{
    if b > 0 {
        let m = (n - 1) as nat;
        lemma_even_blocks(n, a, (b - 1) as nat);
        let prev = heap_block_start(n, a, (b - 1) as nat);
        crate::heap::lemma_heap_block_start_frame(n, a, (b - 1) as nat);
        lemma_pass_source(m, prev);
        crate::heap::lemma_heap_final_frame(m, prev);
        let f = heap_final(m, prev);
        assert(heap_block_start(n, a, b) == swap_at(f, (b - 1) as int, n - 1));
        assert forall|p: int| 0 <= p < n implies #[trigger] heap_block_start(n, a, b)[p]
            == a[even_block_source(n, b, p)] by {
            let q = swap_pos((b - 1) as int, n - 1, p);
            assert(swap_at(f, (b - 1) as int, n - 1)[p] == f[q]);
            lemma_even_block_step(n, (b - 1) as nat, p);
            assert(0 <= pass_source(m, q) < n);
        }
    }
}

/// Block starts of an odd pass, position by position.
proof fn lemma_odd_blocks(n: nat, a: Seq<usize>, b: nat)
    requires
        3 <= n <= a.len(),
        n % 2 == 1,
        b < n,
    ensures
        forall|p: int|
            0 <= p < n ==> #[trigger] heap_block_start(n, a, b)[p] == a[odd_block_source(n, b, p)],
    decreases n, b,
{
    if b > 0 {
        let m = (n - 1) as nat;
        lemma_odd_blocks(n, a, (b - 1) as nat);
        let prev = heap_block_start(n, a, (b - 1) as nat);
        crate::heap::lemma_heap_block_start_frame(n, a, (b - 1) as nat);
        lemma_pass_source(m, prev);
        crate::heap::lemma_heap_final_frame(m, prev);
        let f = heap_final(m, prev);
        assert(heap_block_start(n, a, b) == swap_at(f, 0, n - 1));
        assert forall|p: int| 0 <= p < n implies #[trigger] heap_block_start(n, a, b)[p]
            == a[odd_block_source(n, b, p)] by {
            let q = swap_ends(n, p);
            assert(swap_at(f, 0, n - 1)[p] == f[q]);
            assert(odd_block_source(n, b, p) == odd_block_source(n, (b - 1) as nat, odd_step(n, p)));
            assert(0 <= pass_source(m, q) < n);
        }
    }
}


/// The position of the starting buffer whose entry stands last (at
/// position `n - 1`) during block `b` of a level-`n` pass.
pub open spec fn last_source(n: nat, b: int) -> int {
    if n % 2 == 0 {
        if b == 0 {
            n - 1
        } else if b == 1 {
            n - 2
        } else if b == n - 1 {
            0
        } else {
            b - 1
        }
    } else {
        odd_orbit(n, b)
    }
}

/// The block during which the entry from position `x` stands last.
pub open spec fn last_block(n: nat, x: int) -> int {
    if n % 2 == 0 {
        if x == n - 1 {
            0
        } else if x == n - 2 {
            1
        } else if x == 0 {
            n - 1
        } else {
            x + 1
        }
    } else {
        odd_orbit_index(n, x)
    }
}

proof fn lemma_last_source_bijective(n: nat)
    requires
        n >= 2,
    ensures
        forall|b: int| 0 <= b < n ==> 0 <= #[trigger] last_source(n, b) < n,
        forall|b: int| 0 <= b < n ==> last_block(n, #[trigger] last_source(n, b)) == b,
        forall|x: int| 0 <= x < n ==> 0 <= #[trigger] last_block(n, x) < n,
        forall|x: int| 0 <= x < n ==> last_source(n, #[trigger] last_block(n, x)) == x,
{
    if n % 2 == 1 {
        assert forall|b: int| 0 <= b < n implies 0 <= #[trigger] last_source(n, b) < n
            && last_block(n, last_source(n, b)) == b by {
            lemma_odd_orbit_range(n, b);
        }
        assert forall|x: int| 0 <= x < n implies 0 <= #[trigger] last_block(n, x) < n
            && last_source(n, last_block(n, x)) == x by {
            lemma_odd_orbit_index(n, x);
        }
    }
}

/// During block `b` of a level-`n` pass, the last position holds the entry
/// that started at `last_source(n, b)`.
pub proof fn lemma_block_last(n: nat, a: Seq<usize>, b: nat)
    requires
        2 <= n <= a.len(),
        b < n,
    ensures
        heap_block_start(n, a, b)[n - 1] == a[last_source(n, b as int)],
{
    if n == 2 {
        if b == 1 {
            assert(heap_block_start(2, a, 0) == a);
            assert(heap_final(1, a) == a);
            assert(heap_swap_pos(2, 0) == 0);
        }
    } else if n % 2 == 0 {
        lemma_even_blocks(n, a, b);
        assert(heap_block_start(n, a, b)[n - 1] == a[even_block_source(n, b, n - 1)]);
    } else {
        lemma_odd_blocks(n, a, b);
        assert(heap_block_start(n, a, b)[n - 1] == a[odd_block_source(n, b, n - 1)]);
        assert(odd_orbit2(n, 0) == n - 1);
        lemma_odd_block_source_orbit(n, b, 0);
    }
}

/// No buffer occurs twice in `s`.
pub open spec fn no_dups(s: Seq<Seq<usize>>) -> bool {
    forall|i: int, j: int| 0 <= i < s.len() && 0 <= j < s.len() && i != j ==> s[i] != s[j]
}

/// A level-`n` pass over a buffer whose first `n` entries are distinct
/// never emits the same buffer twice.
pub proof fn lemma_heap_no_dups(n: nat, a: Seq<usize>)
    requires
        1 <= n <= a.len(),
        distinct_prefix(a, n),
    ensures
        no_dups(heap_perms(n, a)),
    decreases n, n + 1,
{
    if n >= 2 {
        lemma_blocks_no_dups(n, a, n);
        assert(heap_perms(n, a) == heap_blocks(n, a, n));
    }
}

/// The first `b` blocks emit no buffer twice, and every buffer they emit
/// ends with the entry that stands last in one of them.
proof fn lemma_blocks_no_dups(n: nat, a: Seq<usize>, b: nat)
    requires
        2 <= n <= a.len(),
        b <= n,
        distinct_prefix(a, n),
    ensures
        no_dups(heap_blocks(n, a, b)),
        forall|t: int|
            0 <= t < heap_blocks(n, a, b).len() ==> exists|c: int|
                0 <= c < b && (#[trigger] heap_blocks(n, a, b)[t])[n - 1] == a[last_source(n, c)],
    decreases n, b,
{
    if b > 0 {
        let m = (n - 1) as nat;
        lemma_blocks_no_dups(n, a, (b - 1) as nat);
        let st = heap_block_start(n, a, (b - 1) as nat);
        lemma_heap_block_start_rearranges(n, a, (b - 1) as nat);
        lemma_heap_no_dups(m, st);
        lemma_heap_rearranges(m, st);
        lemma_block_last(n, a, (b - 1) as nat);
        lemma_last_source_bijective(n);
        let left = heap_blocks(n, a, (b - 1) as nat);
        let right = heap_perms(m, st);
        assert(heap_blocks(n, a, b) == left + right);
        assert forall|t: int| 0 <= t < right.len() implies (#[trigger] right[t])[n - 1] == a[last_source(
            n,
            (b - 1) as int,
        )] by {
            assert(rearranges(right[t], st, m));
        }
        assert forall|t: int| 0 <= t < (left + right).len() implies exists|c: int|
            0 <= c < b && (#[trigger] (left + right)[t])[n - 1] == a[last_source(n, c)] by {
            if t < left.len() {
                assert((left + right)[t] == left[t]);
            } else {
                assert((left + right)[t] == right[t - left.len()]);
            }
        }
        assert forall|i: int, j: int|
            0 <= i < (left + right).len() && 0 <= j < (left + right).len() && i != j implies (left
            + right)[i] != (left + right)[j] by {
            if i < left.len() && j < left.len() {
                assert((left + right)[i] == left[i]);
                assert((left + right)[j] == left[j]);
            } else if i >= left.len() && j >= left.len() {
                assert((left + right)[i] == right[i - left.len()]);
                assert((left + right)[j] == right[j - left.len()]);
            } else {
                let (l, r) = if i < left.len() { (i, j) } else { (j, i) };
                assert((left + right)[l] == left[l]);
                assert((left + right)[r] == right[r - left.len()]);
                let c = choose|c: int| 0 <= c < b - 1 && (#[trigger] left[l])[n - 1] == a[last_source(n, c)];
                assert(right[r - left.len()][n - 1] == a[last_source(n, (b - 1) as int)]);
                assert(last_source(n, c) != last_source(n, (b - 1) as int));
            }
        }
    }
}

/// `x` occurs in `s`.
pub open spec fn contains_buf(s: Seq<Seq<usize>>, x: Seq<usize>) -> bool {
    exists|t: int| 0 <= t < s.len() && s[t] == x
}

/// A level-`n` pass over a buffer whose first `n` entries are distinct
/// emits every rearrangement of them (with distinct entries) that keeps the
/// rest of the buffer.
pub proof fn lemma_heap_complete(n: nat, a: Seq<usize>, q: Seq<usize>)
    requires
        1 <= n <= a.len(),
        distinct_prefix(a, n),
        distinct_prefix(q, n),
        rearranges(q, a, n),
    ensures
        contains_buf(heap_perms(n, a), q),
    decreases n, n + 1,
{
    if n == 1 {
        assert(occurs_in(q[0], a, 1));
        assert(q =~= a);
        assert(heap_perms(n, a)[0] == a);
    } else {
        let m = (n - 1) as nat;
        assert(occurs_in(q[n - 1], a, n));
        let x = choose|x: int| 0 <= x < n && #[trigger] a[x] == q[n - 1];
        lemma_last_source_bijective(n);
        let b = last_block(n, x);
        assert(0 <= b < n);
        let s = heap_block_start(n, a, b as nat);
        lemma_heap_block_start_rearranges(n, a, b as nat);
        lemma_block_last(n, a, b as nat);
        assert(s[n - 1] == q[n - 1]);
        assert forall|p: int| 0 <= p < m implies occurs_in(#[trigger] q[p], s, m) by {
            assert(occurs_in(q[p], a, n));
            let p2 = choose|p2: int| 0 <= p2 < n && #[trigger] a[p2] == q[p];
            assert(occurs_in(a[p2], s, n));
            let p3 = choose|p3: int| 0 <= p3 < n && #[trigger] s[p3] == a[p2];
            assert(p3 != n - 1);
        }
        assert forall|p: int| 0 <= p < m implies occurs_in(#[trigger] s[p], q, m) by {
            assert(occurs_in(s[p], a, n));
            let p2 = choose|p2: int| 0 <= p2 < n && #[trigger] a[p2] == s[p];
            assert(occurs_in(a[p2], q, n));
            let p3 = choose|p3: int| 0 <= p3 < n && #[trigger] q[p3] == a[p2];
            assert(p3 != n - 1);
        }
        assert(rearranges(q, s, m));
        lemma_heap_complete(m, s, q);
        lemma_blocks_contain(n, a, n, b as nat, q);
        assert(heap_perms(n, a) == heap_blocks(n, a, n));
    }
}

/// The first `c` blocks contain everything emitted by block `b < c`.
proof fn lemma_blocks_contain(n: nat, a: Seq<usize>, c: nat, b: nat, q: Seq<usize>)
    requires
        2 <= n,
        b < c <= n,
        contains_buf(heap_perms((n - 1) as nat, heap_block_start(n, a, b)), q),
    ensures
        contains_buf(heap_blocks(n, a, c), q),
    decreases c,
{
    let left = heap_blocks(n, a, (c - 1) as nat);
    let right = heap_perms((n - 1) as nat, heap_block_start(n, a, (c - 1) as nat));
    assert(heap_blocks(n, a, c) == left + right);
    if b == c - 1 {
        let t = choose|t: int| 0 <= t < right.len() && right[t] == q;
        assert((left + right)[left.len() + t] == q);
    } else {
        lemma_blocks_contain(n, a, (c - 1) as nat, b, q);
        let t = choose|t: int| 0 <= t < left.len() && left[t] == q;
        assert((left + right)[t] == q);
    }
}


/// The last buffer a pass emits is the buffer it leaves behind.
pub proof fn lemma_heap_last(n: nat, a: Seq<usize>)
    requires
        1 <= n,
    ensures
        heap_perms(n, a).len() > 0,
        heap_perms(n, a).last() == heap_final(n, a),
    decreases n,
{
    crate::heap::lemma_heap_count(n, a);
    if n >= 2 {
        let m = (n - 1) as nat;
        let s = heap_block_start(n, a, m);
        lemma_heap_last(m, s);
        let left = heap_blocks(n, a, m);
        let right = heap_perms(m, s);
        assert(heap_perms(n, a) == heap_blocks(n, a, n));
        assert(heap_blocks(n, a, n) == left + right);
        assert((left + right).last() == right.last());
    }
}

} // verus!
