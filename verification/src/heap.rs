//! Heap's enumeration of column permutations.
//!
//! The brute-force signed-permutation search scores every permutation of
//! the `K` columns and keeps the first best one, so the order in which the
//! permutations come matters at ties. That order is Heap's algorithm in its
//! recursive form: to enumerate level `n`, enumerate level `n - 1`, then
//! `n - 1` times swap position `n - 1` with position `i` (`n` even) or `0`
//! (`n` odd) and enumerate level `n - 1` again.
use vstd::prelude::*;

use crate::heap_laws::{
    contains_buf,
    distinct_prefix,
    lemma_heap_complete,
    lemma_heap_no_dups,
    lemma_heap_last,
    lemma_heap_rearranges,
    lemma_pass_source,
    no_dups,
    pass_source,
    occurs_in,
    rearranges,
};

verus! {

/// `s` with the entries at positions `i` and `j` exchanged.
pub open spec fn swap_at(s: Seq<usize>, i: int, j: int) -> Seq<usize> {
    s.update(i, s[j]).update(j, s[i])
}

/// The position exchanged with position `n - 1` after block `b` of a
/// level-`n` pass.
pub open spec fn heap_swap_pos(n: nat, b: nat) -> int {
    if n % 2 == 0 {
        b as int
    } else {
        0
    }
}

/// The buffer at the start of block `b` (`0 <= b < n`) of a level-`n` pass
/// over `buf`.
pub open spec fn heap_block_start(n: nat, buf: Seq<usize>, b: nat) -> Seq<usize>
    decreases n, b,
{
    if n < 2 || b == 0 {
        buf
    } else {
        swap_at(
            heap_final((n - 1) as nat, heap_block_start(n, buf, (b - 1) as nat)),
            heap_swap_pos(n, (b - 1) as nat),
            n - 1,
        )
    }
}

/// The buffer left behind by a level-`n` pass over `buf`.
pub open spec fn heap_final(n: nat, buf: Seq<usize>) -> Seq<usize>
    decreases n, n,
{
    if n < 2 {
        buf
    } else {
        heap_final((n - 1) as nat, heap_block_start(n, buf, (n - 1) as nat))
    }
}

/// The buffers emitted by a level-`n` pass over `buf`, in order.
pub open spec fn heap_perms(n: nat, buf: Seq<usize>) -> Seq<Seq<usize>>
    decreases n, n + 1,
{
    if n < 2 {
        seq![buf]
    } else {
        heap_blocks(n, buf, n)
    }
}

/// The buffers emitted by the first `b` blocks of a level-`n` pass.
pub open spec fn heap_blocks(n: nat, buf: Seq<usize>, b: nat) -> Seq<Seq<usize>>
    decreases n, b,
{
    if n < 2 || b == 0 {
        Seq::empty()
    } else {
        heap_blocks(n, buf, (b - 1) as nat) + heap_perms(
            (n - 1) as nat,
            heap_block_start(n, buf, (b - 1) as nat),
        )
    }
}

/// The identity arrangement `0, 1, …, k - 1`.
pub open spec fn identity_perm(k: nat) -> Seq<usize> {
    Seq::new(k, |i: int| i as usize)
}

/// `s` lists each of `0, 1, …, k - 1` exactly once.
pub open spec fn is_permutation(s: Seq<usize>, k: nat) -> bool {
    &&& s.len() == k
    &&& forall|i: int| 0 <= i < k ==> #[trigger] s[i] < k
    &&& forall|i: int, j: int| 0 <= i < k && 0 <= j < k && i != j ==> s[i] != s[j]
    &&& forall|v: usize| v < k ==> #[trigger] occurs_in(v, s, k)
}

/// A buffer lists each of `0..k` exactly once exactly when it rearranges
/// the identity with distinct entries.
pub proof fn lemma_permutation_rearranges_identity(s: Seq<usize>, k: nat)
    requires
        k <= usize::MAX,
    ensures
        is_permutation(s, k) <==> (rearranges(s, identity_perm(k), k) && distinct_prefix(s, k)),
{
    let id = identity_perm(k);
    if is_permutation(s, k) {
        assert forall|p: int| 0 <= p < k implies occurs_in(#[trigger] s[p], id, k) by {
            assert(id[s[p] as int] == s[p]);
        }
        assert forall|p: int| 0 <= p < k implies occurs_in(#[trigger] id[p], s, k) by {
            let v = id[p];
            assert(v < k);
            assert(occurs_in(v, s, k));
        }
    }
    if rearranges(s, id, k) && distinct_prefix(s, k) {
        assert forall|i: int| 0 <= i < k implies #[trigger] s[i] < k by {
            assert(occurs_in(s[i], id, k));
        }
        assert forall|v: usize| v < k implies #[trigger] occurs_in(v, s, k) by {
            assert(id[v as int] == v);
            assert(occurs_in(id[v as int], s, k));
        }
    }
}

/// `n!`.
pub open spec fn factorial(n: nat) -> nat
    decreases n,
{
    if n == 0 {
        1
    } else {
        n * factorial((n - 1) as nat)
    }
}

/// A pass leaves the length of the buffer unchanged and does not touch the
/// positions from `n` on.
pub proof fn lemma_heap_final_frame(n: nat, buf: Seq<usize>)
    requires
        n <= buf.len(),
    ensures
        heap_final(n, buf).len() == buf.len(),
        forall|p: int| n <= p < buf.len() ==> #[trigger] heap_final(n, buf)[p] == buf[p],
    decreases n, n,
{
    if n >= 2 {
        lemma_heap_block_start_frame(n, buf, (n - 1) as nat);
        lemma_heap_final_frame((n - 1) as nat, heap_block_start(n, buf, (n - 1) as nat));
    }
}

/// Block starts keep the length and the positions from `n` on.
pub proof fn lemma_heap_block_start_frame(n: nat, buf: Seq<usize>, b: nat)
    requires
        n <= buf.len(),
        b < n,
    ensures
        heap_block_start(n, buf, b).len() == buf.len(),
        forall|p: int| n <= p < buf.len() ==> #[trigger] heap_block_start(n, buf, b)[p] == buf[p],
    decreases n, b,
{
    if n >= 2 && b > 0 {
        lemma_heap_block_start_frame(n, buf, (b - 1) as nat);
        let prev = heap_block_start(n, buf, (b - 1) as nat);
        lemma_heap_final_frame((n - 1) as nat, prev);
    }
}


/// A level-`n` pass emits `n!` buffers.
pub proof fn lemma_heap_count(n: nat, buf: Seq<usize>)
    ensures
        heap_perms(n, buf).len() == if n == 0 { 1 } else { factorial(n) },
    decreases n, n + 1,
{
    if n >= 2 {
        lemma_heap_blocks_count(n, buf, n);
        assert(n * factorial((n - 1) as nat) == factorial(n));
    } else {
        assert(factorial(1) == 1) by { reveal_with_fuel(factorial, 2); }
    }
}

/// The first `b` blocks of a level-`n` pass emit `b · (n - 1)!` buffers.
pub proof fn lemma_heap_blocks_count(n: nat, buf: Seq<usize>, b: nat)
    requires
        2 <= n,
        b <= n,
    ensures
        heap_blocks(n, buf, b).len() == b * factorial((n - 1) as nat),
    decreases n, b,
{
    let f = factorial((n - 1) as nat);
    if b == 0 {
        assert(0 * f == 0) by (nonlinear_arith);
    } else {
        lemma_heap_blocks_count(n, buf, (b - 1) as nat);
        lemma_heap_count((n - 1) as nat, heap_block_start(n, buf, (b - 1) as nat));
        assert(heap_blocks(n, buf, b).len() == heap_blocks(n, buf, (b - 1) as nat).len()
            + heap_perms((n - 1) as nat, heap_block_start(n, buf, (b - 1) as nat)).len());
        assert((b - 1) * factorial((n - 1) as nat) + factorial((n - 1) as nat) == b * factorial(
            (n - 1) as nat,
        )) by (nonlinear_arith);
    }
}

/// The last arrangement of Heap's enumeration of `0..k` is the net effect
/// of a whole pass on the identity.
pub proof fn lemma_heap_permutations_last(k: nat)
    requires
        1 <= k,
    ensures
        heap_perms(k, identity_perm(k)).len() == factorial(k),
        heap_perms(k, identity_perm(k)).last() == Seq::new(k, |p: int| pass_source(k, p) as usize),
{
    let id = identity_perm(k);
    lemma_heap_count(k, id);
    lemma_heap_last(k, id);
    lemma_pass_source(k, id);
    let fin = heap_final(k, id);
    lemma_heap_final_frame(k, id);
    assert forall|p: int| 0 <= p < k implies #[trigger] fin[p] == pass_source(k, p) as usize by {
        assert(0 <= pass_source(k, p) < k);
    }
    assert(fin =~= Seq::new(k, |p: int| pass_source(k, p) as usize));
}

/// Every arrangement in Heap's enumeration of `0..k` lists each of
/// `0, 1, …, k - 1` exactly once.
pub proof fn lemma_heap_permutations_are_permutations(k: nat)
    requires
        1 <= k <= usize::MAX,
    ensures
        forall|t: int|
            0 <= t < heap_perms(k, identity_perm(k)).len() ==> is_permutation(
                #[trigger] heap_perms(k, identity_perm(k))[t],
                k,
            ),
{
    let id = identity_perm(k);
    lemma_permutation_rearranges_identity(id, k);
    lemma_identity_distinct(k);
    lemma_heap_rearranges(k, id);
    assert forall|t: int| 0 <= t < heap_perms(k, id).len() implies is_permutation(
        #[trigger] heap_perms(k, id)[t],
        k,
    ) by {
        lemma_permutation_rearranges_identity(heap_perms(k, id)[t], k);
    }
}

/// Heap's enumeration of `0..k` contains every permutation of `0..k`.
pub proof fn lemma_heap_permutations_complete(k: nat)
    requires
        1 <= k <= usize::MAX,
    ensures
        forall|q: Seq<usize>| is_permutation(q, k) ==> contains_buf(heap_perms(k, identity_perm(k)), q),
{
    let id = identity_perm(k);
    lemma_identity_distinct(k);
    assert forall|q: Seq<usize>| is_permutation(q, k) implies contains_buf(heap_perms(k, id), q) by {
        lemma_permutation_rearranges_identity(q, k);
        lemma_heap_complete(k, id, q);
    }
}

proof fn lemma_identity_distinct(k: nat)
    requires
        k <= usize::MAX,
    ensures
        distinct_prefix(identity_perm(k), k),
{
    let id = identity_perm(k);
    assert forall|i: int, j: int| 0 <= i < k && 0 <= j < k && i != j implies id[i] != id[j] by {
        assert(id[i] == i as usize);
        assert(id[j] == j as usize);
    }
}

/// Heap's enumeration of `0..k` lists no permutation twice.
pub proof fn lemma_heap_permutations_distinct(k: nat)
    requires
        1 <= k <= usize::MAX,
    ensures
        no_dups(heap_perms(k, identity_perm(k))),
{
    let id = identity_perm(k);
    lemma_identity_distinct(k);
    lemma_heap_no_dups(k, id);
}



} // verus!
