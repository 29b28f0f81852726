//! The mutator selector: a weighted choice between the tree-level and
//! byte-level operator families.

use crate::fuzzing::{Mutator, RunResult};
use crate::mutation::binary_level::{byte_patch_ok, ByteMutator};
use crate::mutation::tree_level::{tree_mutate_ok, TreeMutator};
use crate::rng::{rand_below, rand_ratio};
use crate::sample::{patch_wf, patched_item_bytes, same_structure, Patch, Sample};
use vstd::prelude::*;

verus! {

/// What a byte-level round produces: the input with some patch of the
/// chosen operator applied, the structure untouched.
pub open spec fn byte_outcome(
    m: ByteMutator,
    input: Sample,
    library: Seq<Sample>,
    out: Sample,
) -> bool {
    exists|p: Patch|
        #[trigger] byte_patch_ok(m, input.folded(), library, p) && patch_wf(p) && out.folded()
            == patched_item_bytes(input.tree(), p) && same_structure(out.tree(), input.tree())
}

/// Holds both operator families; each round prefers the tree family with
/// probability 7/10 and falls back when an operator cannot apply.
pub struct MutationChooser {
    binary: Vec<ByteMutator>,
    tree: Vec<TreeMutator>,
}

impl MutationChooser {
    pub closed spec fn byte_mutators(self) -> Seq<ByteMutator> {
        self.binary@
    }

    pub closed spec fn tree_mutators(self) -> Seq<TreeMutator> {
        self.tree@
    }

    /// Every held operator is usable.
    #[verifier::type_invariant]
    pub open spec fn inv(self) -> bool {
        &&& forall|i: int|
            0 <= i < self.byte_mutators().len() ==> (#[trigger] self.byte_mutators()[i]).wf()
        &&& forall|i: int|
            0 <= i < self.tree_mutators().len() ==> (#[trigger] self.tree_mutators()[i]).wf()
    }

    pub open spec fn has_byte_mutators(self) -> bool {
        self.byte_mutators().len() > 0
    }

    pub fn new(binary: Vec<ByteMutator>, tree: Vec<TreeMutator>) -> (r: Self)
        requires
            forall|i: int| 0 <= i < binary@.len() ==> (#[trigger] binary@[i]).wf(),
            forall|i: int| 0 <= i < tree@.len() ==> (#[trigger] tree@[i]).wf(),
        ensures
            r.byte_mutators() == binary@,
            r.tree_mutators() == tree@,
            r.has_byte_mutators() == (binary@.len() > 0),
    {
        MutationChooser { binary, tree }
    }
}

impl Mutator for MutationChooser {
    type MutInfo = (bool, usize);

    open spec fn wf(&self) -> bool {
        self.has_byte_mutators()
    }

    /// Repeatedly draws an operator family and an operator until one
    /// applies: tree operators may decline and hand the input back, byte
    /// operators always emit a patch.  The result is either a tree
    /// operator's successful mutation of the input or the input patched
    /// by a byte operator's patch, with the used operator's index.
    #[verifier::loop_isolation(false)]
    fn mutate_sample(&mut self, sample: Sample, library: &[Sample]) -> (r: (Sample, (bool, usize)))
        ensures
            *final(self) == *old(self),
            r.1.0 ==> (r.1.1 as int) < old(self).tree_mutators().len() && tree_mutate_ok(
                old(self).tree_mutators()[r.1.1 as int],
                sample.tree(),
                r.0,
            ),
            !r.1.0 ==> (r.1.1 as int) < old(self).byte_mutators().len() && byte_outcome(
                old(self).byte_mutators()[r.1.1 as int],
                sample,
                library@,
                r.0,
            ),
    {
        proof {
            use_type_invariant(&*self);
        }
        let mut current = sample;
        let mut attempt: usize = 0;
        while attempt < 1000
            invariant
                self.inv(),
                self.has_byte_mutators(),
                self.byte_mutators() == self.binary@,
                self.tree_mutators() == self.tree@,
                current.tree() == sample.tree(),
                current.folded() == sample.folded(),
            decreases 1000 - attempt,
        {
            let prefer_tree = rand_ratio(7, 10);
            if prefer_tree && self.tree.len() > 0 {
                let idx = rand_below(self.tree.len());
                match self.tree[idx].mutate(current, library) {
                    Ok(res) => {
                        return (res, (true, idx));
                    },
                    Err(res) => {
                        current = res;
                    },
                }
            } else {
                let idx = rand_below(self.binary.len());
                let patch = self.binary[idx].mutate(current.get_folded(), library);
                let ghost p = patch;
                let patched = current.apply_patch(patch);
                proof {
                    assert(byte_patch_ok(
                        old(self).byte_mutators()[idx as int],
                        sample.folded(),
                        library@,
                        p,
                    ));
                    assert(patched.folded() == patched_item_bytes(sample.tree(), p));
                    assert(same_structure(patched.tree(), sample.tree()));
                    assert(byte_outcome(
                        old(self).byte_mutators()[idx as int],
                        sample,
                        library@,
                        patched,
                    ));
                }
                return (patched, (false, idx));
            }
            attempt += 1;
        }
        let patch = self.binary[0].mutate(current.get_folded(), library);
        let ghost p = patch;
        let patched = current.apply_patch(patch);
        proof {
            assert(byte_patch_ok(old(self).byte_mutators()[0], sample.folded(), library@, p));
            assert(patched.folded() == patched_item_bytes(sample.tree(), p));
            assert(same_structure(patched.tree(), sample.tree()));
            assert(byte_outcome(old(self).byte_mutators()[0], sample, library@, patched));
        }
        (patched, (false, 0))
    }

    fn update_scores(&mut self, index: (bool, usize), result: RunResult)
        ensures
            *final(self) == *old(self),
    {
        proof {
            use_type_invariant(&*self);
        }
    }
}

} // verus!
