//! Mutation of samples: byte-level patch emitters, tree-level regrowth,
//! and the weighted chooser between the two families.

pub mod binary_level;
pub mod choice;
pub mod tree_level;

use crate::configuration::{FuzzConfig, InputOptions};
use crate::grammar::Grammar;
use crate::mutation::binary_level::{BitFlip, ByteMutator, CopyFragment, Erasure, Garbage, KnownBytes};
use crate::mutation::choice::MutationChooser;
use crate::mutation::tree_level::{Resample, TreeMutator, TreeRegrow};
use vstd::prelude::*;

verus! {

/// Builds the standard mutator set: the five byte-level operators with
/// their standard bounds, plus the two tree-level operators when fuzzing
/// from a grammar.
pub fn build_mutator(config: &FuzzConfig, grammar: &Grammar) -> (r: MutationChooser)
    requires
        config.input is Grammar ==> grammar.wf() && grammar.validated(),
    ensures
        r.has_byte_mutators(),
        r.byte_mutators().len() == 5,
        r.byte_mutators()[0] is BitFlip,
        r.byte_mutators()[1] matches ByteMutator::Erasure(e) && e.max_size == 100,
        r.byte_mutators()[2] matches ByteMutator::KnownBytes(k) && k.variants_seq().len()
            == crate::mutation::binary_level::known_bytes_list().len() && (forall|i: int|
            0 <= i < k.variants_seq().len() ==> (#[trigger] k.variants_seq()[i])@
                == crate::mutation::binary_level::known_bytes_list()[i]),
        r.byte_mutators()[3] matches ByteMutator::Garbage(g) && g.max_size == 20,
        r.byte_mutators()[4] matches ByteMutator::CopyFragment(c) && c.max_size == 100,
        config.input is Grammar ==> r.tree_mutators().len() == 2 && (r.tree_mutators()[0] matches
            TreeMutator::TreeRegrow(t) && t.depth_limit == 100 && t.descend_rolls == 10
            && t.regenerate_rolls == 10 && t.grammar.wf() && t.grammar.validated())
            && r.tree_mutators()[1] is Resample,
        !(config.input is Grammar) ==> r.tree_mutators().len() == 0,
{
    let mut binary: Vec<ByteMutator> = Vec::new();
    binary.push(ByteMutator::BitFlip(BitFlip {}));
    binary.push(ByteMutator::Erasure(Erasure { max_size: 100 }));
    binary.push(ByteMutator::KnownBytes(KnownBytes::new()));
    binary.push(ByteMutator::Garbage(Garbage { max_size: 20 }));
    binary.push(ByteMutator::CopyFragment(CopyFragment { max_size: 100 }));
    let mut tree: Vec<TreeMutator> = Vec::new();
    if matches!(config.input, InputOptions::Grammar { .. }) {
        tree.push(
            TreeMutator::TreeRegrow(
                TreeRegrow {
                    grammar: grammar.clone(),
                    depth_limit: 100,
                    descend_rolls: 10,
                    regenerate_rolls: 10,
                    mut_proba: 3,
                },
            ),
        );
        tree.push(TreeMutator::Resample(Resample::new(grammar.clone(), 100)));
    }
    MutationChooser::new(binary, tree)
}

} // verus!
