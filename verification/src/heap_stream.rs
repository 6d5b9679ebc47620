//! Heap's enumeration one arrangement at a time, in `O(K)` memory.
//!
//! The state is the current arrangement and one counter per level: the
//! counter at position `i` (level `i + 1`) tells how many blocks of that
//! level are done. The arrangement is the leaf reached by descending from
//! level `K` into block `c[K - 1]`, then into block `c[K - 2]` of the level
//! below, and so on; its place in the enumeration is the mixed-radix number
//! `Σ c[i] · i!`.
use vstd::prelude::*;

use crate::heap::{
    factorial,
    is_permutation,
    lemma_heap_permutations_are_permutations,
    lemma_heap_permutations_last,
    heap_block_start,
    heap_blocks,
    heap_final,
    heap_perms,
    heap_swap_pos,
    identity_perm,
    lemma_heap_blocks_count,
    lemma_heap_count,
    swap_at,
};
use crate::heap_laws::pass_source;

verus! {

/// The arrangement reached by descending `n` levels from `a`, taking block
/// `c[m - 1]` at level `m`.
pub open spec fn heap_leaf(n: nat, a: Seq<usize>, c: Seq<usize>) -> Seq<usize>
    decreases n,
{
    if n < 2 {
        a
    } else {
        heap_leaf((n - 1) as nat, heap_block_start(n, a, c[n - 1] as nat), c)
    }
}

/// The buffer at level `m` after descending from level `n` over `a`.
pub open spec fn heap_descend(n: nat, m: nat, a: Seq<usize>, c: Seq<usize>) -> Seq<usize>
    decreases n,
{
    if n <= m || n < 2 {
        a
    } else {
        heap_descend((n - 1) as nat, m, heap_block_start(n, a, c[n - 1] as nat), c)
    }
}

/// The place of the leaf with counters `c` among the arrangements of a
/// level-`n` pass: `Σ_{1 <= i < n} c[i] · i!`.
pub open spec fn leaf_index(c: Seq<usize>, n: nat) -> nat
    decreases n,
{
    if n < 2 {
        0
    } else {
        leaf_index(c, (n - 1) as nat) + c[n - 1] as nat * factorial((n - 1) as nat)
    }
}

/// Counters valid for `n` levels: `c[i] <= i`.
pub open spec fn valid_counters(c: Seq<usize>, n: nat) -> bool {
    &&& c.len() == n
    &&& forall|i: int| 1 <= i < n ==> #[trigger] c[i] <= i
}

proof fn lemma_leaf_descend(n: nat, m: nat, a: Seq<usize>, c: Seq<usize>)
    requires
        1 <= m <= n,
    ensures
        heap_leaf(n, a, c) == heap_leaf(m, heap_descend(n, m, a, c), c),
    decreases n,
{
    if n > m {
        lemma_leaf_descend((n - 1) as nat, m, heap_block_start(n, a, c[n - 1] as nat), c);
    }
}

proof fn lemma_descend_upper(n: nat, m: nat, a: Seq<usize>, c: Seq<usize>, c2: Seq<usize>)
    requires
        forall|i: int| m <= i < n ==> c[i] == c2[i],
    ensures
        heap_descend(n, m, a, c) == heap_descend(n, m, a, c2),
    decreases n,
{
    if n > m && n >= 2 {
        lemma_descend_upper((n - 1) as nat, m, heap_block_start(n, a, c[n - 1] as nat), c, c2);
    }
}

proof fn lemma_leaf_maxed(m: nat, x: Seq<usize>, c: Seq<usize>)
    requires
        forall|j: int| 1 <= j < m ==> c[j] == j,
    ensures
        heap_leaf(m, x, c) == heap_final(m, x),
    decreases m,
{
    if m >= 2 {
        lemma_leaf_maxed((m - 1) as nat, heap_block_start(m, x, (m - 1) as nat), c);
    }
}

proof fn lemma_leaf_zero(m: nat, x: Seq<usize>, c: Seq<usize>)
    requires
        forall|j: int| 1 <= j < m ==> c[j] == 0,
    ensures
        heap_leaf(m, x, c) == x,
    decreases m,
{
    if m >= 2 {
        assert(heap_block_start(m, x, 0) == x);
        lemma_leaf_zero((m - 1) as nat, x, c);
    }
}

proof fn lemma_index_maxed(m: nat, c: Seq<usize>)
    requires
        m >= 1,
        forall|j: int| 1 <= j < m ==> c[j] == j,
    ensures
        leaf_index(c, m) + 1 == factorial(m),
    decreases m,
{
    if m >= 2 {
        lemma_index_maxed((m - 1) as nat, c);
        let f = factorial((m - 1) as nat);
        assert(leaf_index(c, m) == leaf_index(c, (m - 1) as nat) + (m - 1) * f);
        assert(f + (m - 1) * f == m * f) by (nonlinear_arith);
    } else {
        assert(factorial(1) == 1) by {
            reveal_with_fuel(factorial, 2);
        }
    }
}

proof fn lemma_index_zero(m: nat, c: Seq<usize>)
    requires
        forall|j: int| 1 <= j < m ==> c[j] == 0,
    ensures
        leaf_index(c, m) == 0,
    decreases m,
{
    if m >= 2 {
        lemma_index_zero((m - 1) as nat, c);
    }
}

proof fn lemma_index_upper(n: nat, m: nat, c: Seq<usize>, c2: Seq<usize>)
    requires
        m <= n,
        forall|i: int| m <= i < n ==> c[i] == c2[i],
    ensures
        leaf_index(c, n) - leaf_index(c, m) == leaf_index(c2, n) - leaf_index(c2, m),
    decreases n,
{
    if n > m {
        lemma_index_upper((n - 1) as nat, m, c, c2);
    }
}

proof fn lemma_index_bound(n: nat, c: Seq<usize>)
    requires
        n >= 1,
        forall|i: int| 1 <= i < n ==> c[i] <= i,
    ensures
        leaf_index(c, n) < factorial(n),
    decreases n,
{
    if n >= 2 {
        lemma_index_bound((n - 1) as nat, c);
        let f = factorial((n - 1) as nat);
        let ci = c[n - 1] as nat;
        assert(leaf_index(c, (n - 1) as nat) + ci * f < n * f) by (nonlinear_arith)
            requires
                leaf_index(c, (n - 1) as nat) < f,
                ci <= n - 1,
        ;
    } else {
        assert(factorial(1) == 1) by {
            reveal_with_fuel(factorial, 2);
        }
    }
}

/// The `(b · (n-1)! + t)`-th arrangement of the first `bb` blocks is the
/// `t`-th of block `b`.
proof fn lemma_blocks_at(n: nat, a: Seq<usize>, bb: nat, b: nat, t: nat)
    requires
        n >= 2,
        b < bb <= n,
        t < factorial((n - 1) as nat),
    ensures
        b * factorial((n - 1) as nat) + t < heap_blocks(n, a, bb).len(),
        heap_blocks(n, a, bb)[(b * factorial((n - 1) as nat) + t) as int] == heap_perms(
            (n - 1) as nat,
            heap_block_start(n, a, b),
        )[t as int],
    decreases bb,
{
    let f = factorial((n - 1) as nat);
    let left = heap_blocks(n, a, (bb - 1) as nat);
    let right = heap_perms((n - 1) as nat, heap_block_start(n, a, (bb - 1) as nat));
    lemma_heap_blocks_count(n, a, (bb - 1) as nat);
    lemma_heap_count((n - 1) as nat, heap_block_start(n, a, (bb - 1) as nat));
    assert(heap_blocks(n, a, bb) == left + right);
    assert(right.len() == f);
    if b == bb - 1 {
        assert(b * f + t == left.len() + t);
    } else {
        lemma_blocks_at(n, a, (bb - 1) as nat, b, t);
        assert(b * f + t < (bb - 1) * f) by (nonlinear_arith)
            requires
                b < bb - 1,
                t < f,
        ;
    }
    assert(b * f + t < bb * f) by (nonlinear_arith)
        requires
            b < bb,
            t < f,
    ;
    lemma_heap_blocks_count(n, a, bb);
}

/// The leaf with counters `c` is the arrangement at place `leaf_index(c, n)`.
pub proof fn lemma_leaf_is_perm(n: nat, a: Seq<usize>, c: Seq<usize>)
    requires
        n >= 1,
        forall|i: int| 1 <= i < n ==> c[i] <= i,
    ensures
        leaf_index(c, n) < heap_perms(n, a).len(),
        heap_perms(n, a)[leaf_index(c, n) as int] == heap_leaf(n, a, c),
    decreases n,
{
    lemma_heap_count(n, a);
    lemma_index_bound(n, c);
    if n >= 2 {
        let b = c[n - 1] as nat;
        let s = heap_block_start(n, a, b);
        lemma_leaf_is_perm((n - 1) as nat, s, c);
        lemma_heap_count((n - 1) as nat, s);
        lemma_blocks_at(n, a, n, b, leaf_index(c, (n - 1) as nat));
        assert(heap_perms(n, a) == heap_blocks(n, a, n));
        assert(leaf_index(c, n) == b * factorial((n - 1) as nat) + leaf_index(c, (n - 1) as nat));
    }
}

/// One step of the enumeration: with the counters below position `i` at
/// their maximum and the one at `i` not, swapping position `i` with
/// `heap_swap_pos(i + 1, c[i])`, bumping `c[i]` and zeroing the counters
/// below gives the next arrangement.
pub proof fn lemma_leaf_step(k: nat, a: Seq<usize>, c: Seq<usize>, c2: Seq<usize>, i: nat)
    requires
        1 <= i < k,
        c.len() == k,
        c2.len() == k,
        forall|j: int| 1 <= j < k ==> #[trigger] c[j] <= j,
        forall|j: int| 1 <= j < i ==> #[trigger] c[j] == j,
        c[i as int] < i,
        forall|j: int| 1 <= j < i ==> #[trigger] c2[j] == 0,
        c2[i as int] == c[i as int] + 1,
        forall|j: int| i < j < k ==> #[trigger] c2[j] == c[j],
    ensures
        heap_leaf(k, a, c2) == swap_at(
            heap_leaf(k, a, c),
            heap_swap_pos(i + 1, c[i as int] as nat),
            i as int,
        ),
        leaf_index(c2, k) == leaf_index(c, k) + 1,
{
    let m = i + 1;
    lemma_leaf_descend(k, m, a, c);
    lemma_leaf_descend(k, m, a, c2);
    lemma_descend_upper(k, m, a, c, c2);
    let y = heap_descend(k, m, a, c);
    let x = heap_block_start(m, y, c[i as int] as nat);
    lemma_leaf_maxed(i, x, c);
    let x2 = heap_block_start(m, y, c2[i as int] as nat);
    lemma_leaf_zero(i, x2, c2);
    assert(heap_leaf(m, y, c) == heap_leaf(i, x, c));
    assert(heap_leaf(m, y, c2) == heap_leaf(i, x2, c2));
    assert(x2 == swap_at(heap_final(i, x), heap_swap_pos(m, c[i as int] as nat), i as int));
    lemma_index_upper(k, m, c, c2);
    lemma_index_maxed(i, c);
    lemma_index_zero(i, c2);
    assert(leaf_index(c, m) == leaf_index(c, i) + c[i as int] as nat * factorial(i));
    assert(leaf_index(c2, m) == leaf_index(c2, i) + c2[i as int] as nat * factorial(i));
    assert(c2[i as int] as nat * factorial(i) == c[i as int] as nat * factorial(i) + factorial(i))
        by (nonlinear_arith)
        requires
            c2[i as int] as nat == c[i as int] as nat + 1,
    ;
}


/// Heap's enumeration of the permutations of `0..k`, one at a time.
pub struct HeapEnumerator {
    buf: Vec<usize>,
    counters: Vec<usize>,
    k: usize,
}

impl HeapEnumerator {
    /// Number of columns.
    pub closed spec fn spec_k(&self) -> nat {
        self.k as nat
    }

    /// Place of the current arrangement in the enumeration.
    pub closed spec fn position(&self) -> nat {
        leaf_index(self.counters@, self.k as nat)
    }

    /// The current arrangement.
    pub closed spec fn arrangement(&self) -> Seq<usize> {
        self.buf@
    }

    /// The arrangement is the leaf that the counters name.
    #[verifier::type_invariant]
    closed spec fn wf(&self) -> bool {
        &&& self.k >= 1
        &&& self.buf@.len() == self.k
        &&& valid_counters(self.counters@, self.k as nat)
        &&& self.buf@ == heap_leaf(self.k as nat, identity_perm(self.k as nat), self.counters@)
    }

    /// The enumeration of the permutations of `0..k`, at its first
    /// arrangement, the identity.
    pub fn new(k: usize) -> (e: HeapEnumerator)
        requires
            k >= 1,
        ensures
            e.spec_k() == k,
            e.position() == 0,
            e.arrangement() == identity_perm(k as nat),
    {
        let mut buf: Vec<usize> = Vec::with_capacity(k);
        let mut counters: Vec<usize> = Vec::with_capacity(k);
        let mut i: usize = 0;
        while i < k
            invariant
                0 <= i <= k,
                buf@ == identity_perm(i as nat),
                counters@.len() == i,
                forall|j: int| 0 <= j < i ==> #[trigger] counters@[j] == 0,
            decreases k - i,
        {
            buf.push(i);
            counters.push(0);
            i = i + 1;
            proof {
                assert(buf@ =~= identity_perm(i as nat));
            }
        }
        proof {
            lemma_leaf_zero(k as nat, buf@, counters@);
            lemma_index_zero(k as nat, counters@);
        }
        HeapEnumerator { buf, counters, k }
    }

    /// The current arrangement: the `position()`-th of Heap's enumeration.
    pub fn current(&self) -> (v: &Vec<usize>)
        ensures
            self.position() < factorial(self.spec_k()),
            heap_perms(self.spec_k(), identity_perm(self.spec_k())).len() == factorial(self.spec_k()),
            v@ == self.arrangement(),
            v@ == heap_perms(self.spec_k(), identity_perm(self.spec_k()))[self.position() as int],
            is_permutation(v@, self.spec_k()),
    {
        proof {
            use_type_invariant(self);
            lemma_leaf_is_perm(self.k as nat, identity_perm(self.k as nat), self.counters@);
            lemma_heap_count(self.k as nat, identity_perm(self.k as nat));
            lemma_heap_permutations_are_permutations(self.k as nat);
            let all = heap_perms(self.k as nat, identity_perm(self.k as nat));
            assert(is_permutation(all[self.position() as int], self.k as nat));
        }
        &self.buf
    }

    /// Moves to the next arrangement; `false`, with nothing changed, when
    /// the current one is the last.
    pub fn advance(&mut self) -> (more: bool)
        ensures
            final(self).spec_k() == old(self).spec_k(),
            more <==> old(self).position() + 1 < factorial(old(self).spec_k()),
            more ==> final(self).position() == old(self).position() + 1,
            !more ==> final(self).position() == old(self).position() && final(self).arrangement()
                == old(self).arrangement(),
            !more ==> final(self).arrangement() == Seq::new(
                old(self).spec_k(),
                |p: int| pass_source(old(self).spec_k(), p) as usize,
            ),
    {
        proof {
            use_type_invariant(&*self);
        }
        let ghost c0 = self.counters@;
        let ghost b0 = self.buf@;
        let k = self.k;
        let mut i: usize = 1;
        while i < k && self.counters[i] == i
            invariant
                1 <= i <= k,
                k == self.k,
                self.counters@ == c0,
                self.buf@ == b0,
                b0.len() == k,
                valid_counters(c0, k as nat),
                forall|j: int| 1 <= j < i ==> #[trigger] c0[j] == j,
            decreases k - i,
        {
            i = i + 1;
        }
        if i >= k {
            proof {
                lemma_index_maxed(k as nat, c0);
                lemma_leaf_is_perm(k as nat, identity_perm(k as nat), c0);
                lemma_heap_permutations_last(k as nat);
                let all = heap_perms(k as nat, identity_perm(k as nat));
                assert(all.last() == all[leaf_index(c0, k as nat) as int]);
            }
            return false;
        }
        // Take the state out, step it, and put it back whole.
        let mut taken = HeapEnumerator::new(1);
        std::mem::swap(self, &mut taken);
        let HeapEnumerator { buf: mut buf, counters: mut counters, k: _ } = taken;
        let mut j: usize = 1;
        while j < i
            invariant
                1 <= j <= i < k,
                counters@.len() == k,
                forall|t: int| 1 <= t < j ==> #[trigger] counters@[t] == 0,
                forall|t: int| j <= t < k ==> #[trigger] counters@[t] == c0[t],
                counters@[0] == c0[0],
                buf@ == b0,
                b0.len() == k,
                valid_counters(c0, k as nat),
            decreases i - j,
        {
            counters.set(j, 0);
            j = j + 1;
        }
        let ci = counters[i];
        let pos: usize = if (i + 1) % 2 == 0 { ci } else { 0 };
        let t = buf[pos];
        let last = buf[i];
        buf.set(pos, last);
        buf.set(i, t);
        counters.set(i, ci + 1);
        proof {
            lemma_leaf_is_perm(k as nat, identity_perm(k as nat), c0);
            lemma_heap_count(k as nat, identity_perm(k as nat));
            assert(b0.len() == k);
            assert(buf@ =~= swap_at(b0, pos as int, i as int));
            assert(heap_swap_pos((i + 1) as nat, ci as nat) == pos);
            lemma_leaf_step(k as nat, identity_perm(k as nat), c0, counters@, i as nat);
            lemma_index_bound(k as nat, counters@);
        }
        *self = HeapEnumerator { buf, counters, k };
        true
    }
}

} // verus!
