//! procrustes — the combinatorial and decision core of orthogonal
//! Procrustes, signed-permutation alignment and Generalised Procrustes
//! Analysis (GPA).
//!
//! The floating-point numerics (dot products, SVD, norms) live in the
//! companion application crate; this library holds, with proofs, what those
//! numerics are driven by: input validation and its error reporting, the
//! enumeration of candidate column permutations, the integer bookkeeping of
//! the linear-assignment solver, and the iteration control of GPA.
use vstd::prelude::*;

pub mod assignment;
pub mod error;
pub mod gpa;
pub mod heap;
pub mod heap_laws;
pub mod heap_stream;
pub mod path_search;
pub mod validate;

pub use error::ProcrustesError;
pub use gpa::{GpaInit, GpaLoop, GpaStep, InnerAligner};
