//! A coverage-guided, grammar-aware fuzzing library.
//!
//! The crate models fuzz inputs as grammar-derived parse trees with a
//! byte-level patch layer, keeps a corpus of samples indexed by execution
//! fingerprint, and provides the decision logic of the fuzzing loop:
//! mutation, classification and coverage accounting.  Process execution,
//! tracing and file I/O are left to the embedding program.

pub mod analysys;
pub mod configuration;
pub mod fuzz_thread;
pub mod log;
pub mod execution;
pub mod mutation;
pub mod flags;
pub mod grammar;
pub mod fuzzing;
mod rng;
pub mod sample_library;
pub mod sample;

use vstd::prelude::*;

verus! {

} // verus!
