//! The fuzzing loop's decision core: classification of executed samples.
//!
//! One iteration picks a seed, mutates it, executes the result and then
//! classifies the pair of sample and trace against the library.  Picking,
//! mutating and classifying live here and in the neighbouring modules; the
//! execution itself is the embedding program's job, reached through the
//! `Evaluator` interface.

use crate::execution::{ExecutionError, RunTrace};
use crate::sample::Sample;
use crate::sample_library::{lemma_entry_congruent, trace_eq, VectorLibrary};
use vstd::prelude::*;

verus! {

/// A sample paired with the outcome of executing it.
#[derive(Clone, Debug)]
pub struct TestedSample<S, E> {
    pub sample: S,
    pub result: E,
}

/// What one fuzzing iteration produced.
pub struct RunResult {
    pub sample: Sample,
    pub trace: RunTrace,
    pub status: RunResultStatus,
}

/// How the library classified an executed sample.
#[derive(Clone, Copy, Debug, PartialEq, Eq, Structural)]
pub enum RunResultStatus {
    /// The fingerprint was known and the stored exemplar is at most as
    /// large; the library is untouched.
    Nothing,
    /// The fingerprint was not in the library; the sample became its
    /// exemplar.
    New,
    /// The fingerprint was known and the new sample is smaller by the
    /// carried number of bytes; it replaced the exemplar.
    SizeImprovement(usize),
}

/// Executes samples.  The implementation runs the target process, so it
/// lives in the embedding program; nothing is assumed about its results.
pub trait Evaluator {
    type Item;

    type EvalResult;

    fn score(&mut self, sample: Self::Item) -> Result<
        TestedSample<Self::Item, Self::EvalResult>,
        ExecutionError,
    >;
}

/// Produces a mutated sample from a seed and the current corpus.  The
/// seed must be shorter than the address-space limit the byte operators
/// keep clear of.
pub trait Mutator {
    type MutInfo;

    spec fn wf(&self) -> bool;

    fn mutate_sample(&mut self, sample: Sample, library: &[Sample]) -> (r: (Sample, Self::MutInfo))
        requires
            old(self).wf(),
            crate::mutation::binary_level::reference_fits(sample.folded().len()),
        ensures
            final(self).wf(),
    ;

    fn update_scores(&mut self, index: Self::MutInfo, result: RunResult)
        requires
            old(self).wf(),
        ensures
            final(self).wf(),
    ;
}

/// Classifies an executed sample against the library.
///
/// A fingerprint never seen becomes a new entry (`New`); a known
/// fingerprint keeps the smaller of the stored and the new sample
/// (`SizeImprovement` carries how many bytes were saved); otherwise the
/// library is untouched (`Nothing`).  The stored exemplar for a key never
/// grows: for every fingerprint in the library, its exemplar's size after
/// the call is at most its size before.
pub fn put_in_library(library: &mut VectorLibrary, tested: TestedSample<Sample, RunTrace>) -> (r:
    RunResult)
    ensures
        r.sample == tested.sample,
        r.trace == tested.result,
        final(library).spec_contains(tested.result),
        final(library).spec_entry(tested.result).item.folded().len() <= tested.sample.folded().len(),
        !old(library).spec_contains(tested.result) ==> {
            &&& r.status == RunResultStatus::New
            &&& final(library).entries().len() == old(library).entries().len() + 1
            &&& final(library).spec_entry(tested.result).item.folded() == tested.sample.folded()
            &&& final(library).spec_entry(tested.result).unique_name is None
        },
        old(library).spec_contains(tested.result) ==> {
            &&& final(library).entries().len() == old(library).entries().len()
            &&& final(library).spec_entry(tested.result).unique_name == old(library).spec_entry(tested.result).unique_name
            &&& if old(library).spec_entry(tested.result).item.folded().len()
                > tested.sample.folded().len() {
                &&& r.status == RunResultStatus::SizeImprovement(
                    (old(library).spec_entry(tested.result).item.folded().len()
                        - tested.sample.folded().len()) as usize,
                )
                &&& final(library).spec_entry(tested.result).item.folded()
                    == tested.sample.folded()
            } else {
                &&& r.status == RunResultStatus::Nothing
                &&& *final(library) == *old(library)
            }
        },
        forall|k: RunTrace|
            old(library).spec_contains(k) ==> #[trigger] final(library).spec_contains(k) && final(library).spec_entry(k).item.folded().len() <= old(library).spec_entry(k).item.folded().len(),
        forall|k: RunTrace|
            !trace_eq(k, tested.result) ==> #[trigger] final(library).spec_contains(k) == old(library).spec_contains(k),
        forall|k: RunTrace|
            !trace_eq(k, tested.result) && old(library).spec_contains(k) ==> #[trigger] final(library).spec_entry(k) == old(library).spec_entry(k),
{
    proof {
        use_type_invariant(&*library);
    }
    let TestedSample { sample, result } = tested;
    let status: RunResultStatus;
    let existing_size: Option<usize> = match library.find_existing(&result) {
        Some(existing) => Some(existing.item.get_size_score()),
        None => None,
    };
    match existing_size {
        None => {
            library.upsert(result.clone(), sample.clone());
            status = RunResultStatus::New;
            proof {
                assert(trace_eq(result, tested.result));
            }
        },
        Some(old_size) => {
            if old_size > sample.get_size_score() {
                let delta = old_size - sample.get_size_score();
                library.upsert(result.clone(), sample.clone());
                status = RunResultStatus::SizeImprovement(delta);
            } else {
                status = RunResultStatus::Nothing;
            }
        },
    }
    proof {
        use_type_invariant(&*library);
        assert forall|k: RunTrace| old(library).spec_contains(k) implies #[trigger] library
            .spec_contains(k) && library.spec_entry(k).item.folded().len() <= old(library).spec_entry(k).item.folded().len() by {
            if trace_eq(k, tested.result) {
                lemma_entry_congruent(*old(library), k, tested.result);
                lemma_entry_congruent(*library, tested.result, k);
            }
        }
    }
    RunResult { sample, trace: result, status }
}

} // verus!
