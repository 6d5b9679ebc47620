//! Generalised Procrustes Analysis: options and iteration control.
use vstd::prelude::*;

verus! {

/// Inner per-iteration aligner used by `generalized`.
#[derive(Debug, Clone, Copy)]
#[non_exhaustive]
pub enum InnerAligner {
    /// `orthogonal` — Schönemann SVD; `R ∈ O(K)`.
    /// Default; matches morphometric / shape-analysis convention.
    Orthogonal,
    /// `signed_permutation` — exact signed-permutation alignment.
    /// Recommended for PLS bootstrap, where component order can vary
    /// across resamples.
    SignedPermutation,
    /// `rotation_only` — `R ∈ SO(K)` (proper rotation, no
    /// reflection). Use when reflection is physically meaningless
    /// (chemistry, rigid-body alignment).
    RotationOnly,
}

/// Initial consensus seed for `generalized`.
#[derive(Debug, Clone, Copy)]
#[non_exhaustive]
pub enum GpaInit {
    /// Use `matrices[0]` (post-`procrustes_form` rescaling, if enabled) as
    /// the initial consensus.
    FirstMatrix,
    /// Use the (weighted, if `weights` are set) arithmetic mean of the raw
    /// inputs as the initial consensus.
    Mean,
}


/// What the GPA driver does next.
#[derive(Debug, Clone, Copy, PartialEq, Eq, Structural)]
pub enum GpaStep {
    /// Run one more iteration: align every input to the consensus, then
    /// recompute the consensus and its drift.
    Iterate,
    /// Stop: the last drift fell below the tolerance.
    Converged,
    /// Stop: the iteration budget is spent without convergence.
    Exhausted,
}

/// The step that follows `done` completed iterations out of `max_iters`,
/// the last of which ended with a drift below tolerance when `below`.
pub open spec fn next_step(done: nat, max_iters: nat, below: bool) -> GpaStep {
    if below {
        GpaStep::Converged
    } else if done >= max_iters {
        GpaStep::Exhausted
    } else {
        GpaStep::Iterate
    }
}

/// The step taken before any iteration.
pub open spec fn first_step(max_iters: nat) -> GpaStep {
    if max_iters == 0 {
        GpaStep::Exhausted
    } else {
        GpaStep::Iterate
    }
}

/// The outcomes after the first one (none left stays none left).
pub open spec fn later(below: Seq<bool>) -> Seq<bool> {
    if below.len() > 0 {
        below.drop_first()
    } else {
        below
    }
}

/// Whether the first listed outcome is a drift below tolerance (an
/// iteration whose outcome is not listed counts as not converging).
pub open spec fn first_below(below: Seq<bool>) -> bool {
    below.len() > 0 && below[0]
}

/// Number of iterations a GPA run with budget `max_iters` performs when the
/// `t`-th iteration's drift falls below tolerance exactly when `below[t]`:
/// it stops at the first such iteration, or when the budget is spent.
pub open spec fn run_length(max_iters: nat, below: Seq<bool>) -> nat
    decreases max_iters,
{
    if max_iters == 0 {
        0
    } else if first_below(below) {
        1
    } else {
        1 + run_length((max_iters - 1) as nat, later(below))
    }
}

/// Whether that run has an iteration within the budget whose drift falls
/// below tolerance.
pub open spec fn run_converges(max_iters: nat, below: Seq<bool>) -> bool {
    exists|t: int| 0 <= t < max_iters && 0 <= t < below.len() && #[trigger] below[t]
}

/// Number of iterations performed by a driver of `GpaLoop` that, with
/// `done` iterations recorded, runs one more iteration, records its
/// outcome `first_below(below)`, and goes on while `record` answers
/// `Iterate`.
pub open spec fn driven_iterations(done: nat, max_iters: nat, below: Seq<bool>) -> nat
    decreases max_iters - done,
{
    if done >= max_iters {
        0
    } else if next_step(done + 1, max_iters, first_below(below)) == GpaStep::Iterate {
        1 + driven_iterations(done + 1, max_iters, later(below))
    } else {
        1
    }
}

/// The step on which that driver stops.
pub open spec fn driven_stop(done: nat, max_iters: nat, below: Seq<bool>) -> GpaStep
    decreases max_iters - done,
{
    if done >= max_iters {
        GpaStep::Exhausted
    } else if next_step(done + 1, max_iters, first_below(below)) == GpaStep::Iterate {
        driven_stop(done + 1, max_iters, later(below))
    } else {
        next_step(done + 1, max_iters, first_below(below))
    }
}

/// Iteration control of the GPA loop: the number of completed iterations
/// and the budget `max_iters`.
pub struct GpaLoop {
    done: usize,
    max_iters: usize,
}

impl GpaLoop {
    /// Number of completed iterations.
    pub closed spec fn spec_done(&self) -> nat {
        self.done as nat
    }

    /// The iteration budget.
    pub closed spec fn spec_max_iters(&self) -> nat {
        self.max_iters as nat
    }

    /// Never more iterations than the budget.
    #[verifier::type_invariant]
    closed spec fn wf(&self) -> bool {
        self.done <= self.max_iters
    }

    /// A loop that has run no iteration yet, with budget `max_iters`.
    pub fn new(max_iters: usize) -> (s: GpaLoop)
        ensures
            s.spec_done() == 0,
            s.spec_max_iters() == max_iters,
    {
        GpaLoop { done: 0, max_iters }
    }

    /// The step to take before any iteration: `Exhausted` for a zero
    /// budget, otherwise `Iterate`.
    pub fn start(&self) -> (step: GpaStep)
        ensures
            step == first_step(self.spec_max_iters()),
    {
        if self.max_iters == 0 {
            GpaStep::Exhausted
        } else {
            GpaStep::Iterate
        }
    }

    /// Records one completed iteration whose drift fell below tolerance
    /// when `drift_below_tol`, and returns the next step. Once the budget
    /// is spent nothing more is counted and the result is `Converged` or
    /// `Exhausted`.
    pub fn record(&mut self, drift_below_tol: bool) -> (step: GpaStep)
        ensures
            final(self).spec_done() <= final(self).spec_max_iters(),
            final(self).spec_max_iters() == old(self).spec_max_iters(),
            old(self).spec_done() < old(self).spec_max_iters() ==> final(self).spec_done()
                == old(self).spec_done() + 1,
            old(self).spec_done() >= old(self).spec_max_iters() ==> final(self).spec_done()
                == old(self).spec_done(),
            step == next_step(final(self).spec_done(), final(self).spec_max_iters(), drift_below_tol),
    {
        proof {
            use_type_invariant(&*self);
        }
        if self.done < self.max_iters {
            self.done = self.done + 1;
        }
        if drift_below_tol {
            GpaStep::Converged
        } else if self.done >= self.max_iters {
            GpaStep::Exhausted
        } else {
            GpaStep::Iterate
        }
    }

    /// Number of completed iterations.
    pub fn iterations(&self) -> (n: usize)
        ensures
            n == self.spec_done(),
            n <= self.spec_max_iters(),
    {
        proof {
            use_type_invariant(self);
        }
        self.done
    }
}

/// The GPA loop stops after at most `max_iters` iterations; it stops at
/// the first iteration whose drift falls below tolerance, and a run that
/// never gets there performs exactly `max_iters` iterations.
pub proof fn lemma_run_bounded(max_iters: nat, below: Seq<bool>)
    ensures
        run_length(max_iters, below) <= max_iters,
        max_iters > 0 ==> run_length(max_iters, below) >= 1,
        !run_converges(max_iters, below) ==> run_length(max_iters, below) == max_iters,
        run_converges(max_iters, below) ==> {
            let n = run_length(max_iters, below);
            &&& below[n - 1]
            &&& forall|t: int| 0 <= t < n - 1 ==> !#[trigger] below[t]
        },
    decreases max_iters,
{
    if max_iters == 0 {
    } else if first_below(below) {
    } else {
        let rest = later(below);
        lemma_run_bounded((max_iters - 1) as nat, rest);
        if below.len() == 0 {
            assert(!run_converges(max_iters, below));
            assert(!run_converges((max_iters - 1) as nat, rest));
        } else {
            assert forall|t: int| 0 <= t < rest.len() implies rest[t] == below[t + 1] by {}
            if run_converges(max_iters, below) {
                let t = choose|t: int| 0 <= t < max_iters && 0 <= t < below.len() && #[trigger] below[t];
                assert(t >= 1);
                assert(rest[t - 1] == below[t]);
                assert(run_converges((max_iters - 1) as nat, rest));
                let n = run_length(max_iters, below);
                assert forall|u: int| 0 <= u < n - 1 implies !#[trigger] below[u] by {
                    if u > 0 {
                        assert(below[u] == rest[u - 1]);
                    }
                }
            } else {
                if run_converges((max_iters - 1) as nat, rest) {
                    let t = choose|t: int|
                        0 <= t < max_iters - 1 && 0 <= t < rest.len() && #[trigger] rest[t];
                    assert(below[t + 1] == rest[t]);
                }
            }
        }
    }
}

/// A driver that starts a `GpaLoop` with budget `max_iters` and records
/// the drift outcomes `below` in turn performs exactly the iterations of
/// `run_length`, and stops with `Converged` exactly when `run_converges`.
pub proof fn lemma_driver_follows_run(done: nat, max_iters: nat, below: Seq<bool>)
    requires
        done <= max_iters,
    ensures
        driven_iterations(done, max_iters, below) == run_length((max_iters - done) as nat, below),
        done < max_iters ==> (driven_stop(done, max_iters, below) == GpaStep::Converged
            <==> run_converges((max_iters - done) as nat, below)),
        done < max_iters ==> (driven_stop(done, max_iters, below) == GpaStep::Converged
            || driven_stop(done, max_iters, below) == GpaStep::Exhausted),
    decreases max_iters - done,
{
    let m = (max_iters - done) as nat;
    if done >= max_iters {
    } else if first_below(below) {
        assert(below[0]);
        assert(run_converges(m, below));
    } else if done + 1 >= max_iters {
        assert(m == 1);
        assert(run_length(0, later(below)) == 0);
        if run_converges(m, below) {
            let t = choose|t: int| 0 <= t < m && 0 <= t < below.len() && #[trigger] below[t];
            assert(t == 0);
        }
    } else {
        let rest = later(below);
        lemma_driver_follows_run(done + 1, max_iters, rest);
        assert((max_iters - (done + 1)) as nat == (m - 1) as nat);
        if below.len() == 0 {
            assert(!run_converges(m, below));
            assert(!run_converges((m - 1) as nat, rest));
        } else {
            assert forall|t: int| 0 <= t < rest.len() implies rest[t] == below[t + 1] by {}
            if run_converges(m, below) {
                let t = choose|t: int| 0 <= t < m && 0 <= t < below.len() && #[trigger] below[t];
                assert(t >= 1);
                assert(rest[t - 1] == below[t]);
            }
            if run_converges((m - 1) as nat, rest) {
                let t = choose|t: int| 0 <= t < m - 1 && 0 <= t < rest.len() && #[trigger] rest[t];
                assert(below[t + 1] == rest[t]);
            }
        }
    }
}

} // verus!
