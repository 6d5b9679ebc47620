# procrustes

Orthogonal Procrustes, signed-permutation alignment and Generalised
Procrustes Analysis over `faer` matrices, with the discrete core verified
in Verus.

- `src/` — the verified library:
  - `validate.rs`: shape, finiteness and option checks, with the exact error
    each input gets and the order the checks run in;
  - `heap.rs`, `heap_laws.rs`, `heap_stream.rs`: Heap's enumeration of
    column permutations, produced one arrangement at a time in `O(K)` memory,
    with proofs that it lists every permutation of `0..K` exactly once,
    starting from the identity, and of the net effect of a pass;
  - `assignment.rs`: the choice between brute force and Jonker-Volgenant,
    and the integer matching bookkeeping of the Jonker-Volgenant solver
    (column reduction into an initial matching, the row-reduction queue,
    the column list of the shortest-path search, path augmentation), with
    proofs that the matching stays consistent, that the free rows stay
    exactly the unmatched ones, that a whole row-reduction pass never lowers
    the number of matched columns, and that augmenting every free row along
    an augmenting path ends in a permutation; the phase order of the solver
    (`jv_next_phase`) is stated there too;
  - `path_search.rs`: the column bookkeeping of the Jonker-Volgenant
    shortest-path search (`PathSearch`: the scanned / ready / to-do
    segments of the column list and the predecessor of each column, driven
    by the caller's distance comparisons) and the augmentation phase
    (`Augmentation`), with proofs that whatever those comparisons were, the
    search ends at an unmatched column at the end of an augmenting path, so
    that flipping it always succeeds, keeps the matching consistent and
    matches exactly the row searched from; once no free row is left the
    matching is a permutation;
  - `gpa.rs`: the GPA options and the iteration control, with proofs that
    a run stops within its budget, at the first converging iteration;
  - `error.rs`: the error type.
- `app/` — the floating-point numerics (dot products, SVD, determinant,
  norms, costs, path distances and dual-variable updates) and the public `faer`-based API
  (`orthogonal`, `rotation_only`, `signed_permutation`, `sign_align`,
  `generalized`), which call into the library for every decision above.
- `tests/` — tests of the library.

## Third-party code

The Jonker-Volgenant solver (`src/assignment.rs`, `src/path_search.rs`,
`app/lap.rs`) is based on
[Antti/lapjv-rust](https://github.com/Antti/lapjv-rust) v0.3.0, MIT-licensed,
Copyright (c) 2018-2021 Andrii Dmytrenko. The full notice is in
`extras/LICENSE-THIRDPARTY`.
