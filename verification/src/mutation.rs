//! The mutation interface.
use vstd::prelude::*;
use crate::rng::SimpleRng;

verus! {

/// Mutation: changes genes in place, keeping their number.
///
/// An operator whose `described` is true promises that its result and its
/// draws are those given by `mutated` and `mutation_state`; for an operator
/// that leaves `described` false, these two say nothing.
pub trait Mutation<G> {
    /// Whether `mutated` and `mutation_state` describe this operator.
    open spec fn described(&self) -> bool {
        false
    }

    /// The genes that `genes` become when mutated from generator state `state`.
    open spec fn mutated(&self, genes: Seq<G>, state: u64) -> Seq<G> {
        genes
    }

    /// The generator state after mutating `genes` from `state`.
    open spec fn mutation_state(&self, genes: Seq<G>, state: u64) -> u64 {
        state
    }

    /// Mutates `genes`, drawing from `rng`.
    fn mutate(&self, genes: &mut Vec<G>, rng: &mut SimpleRng)
        ensures
            final(genes)@.len() == old(genes)@.len(),
            self.described() ==> final(genes)@ == self.mutated(old(genes)@, old(rng).state())
                && final(rng).state() == self.mutation_state(old(genes)@, old(rng).state()),
    ;
}

} // verus!
