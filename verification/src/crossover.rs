//! Crossover operators: single-point and uniform.
use vstd::prelude::*;
use crate::rng::{Probability, SimpleRng, index_draw, lcg_next, lcg_skip, lemma_index_draw_in_range, unit_draw};
use crate::selection::copy_genes;

verus! {

/// Crossover: two offspring, as long as the parents, from two parents.
///
/// An operator whose `described` is true promises that its offspring and
/// its draws are those given by `offspring` and `crossover_state`; for an
/// operator that leaves `described` false, these two say nothing.
pub trait Crossover<G> {
    /// Whether `offspring` and `crossover_state` describe this operator.
    open spec fn described(&self) -> bool {
        false
    }

    /// The offspring of `parent1` and `parent2` bred from generator state `state`.
    open spec fn offspring(&self, parent1: Seq<G>, parent2: Seq<G>, state: u64) -> (Seq<G>, Seq<G>) {
        (parent1, parent2)
    }

    /// The generator state after breeding `parent1` and `parent2` from `state`.
    open spec fn crossover_state(&self, parent1: Seq<G>, parent2: Seq<G>, state: u64) -> u64 {
        state
    }

    /// Produces two offspring from two parents of equal length.
    fn crossover(&self, parent1: &[G], parent2: &[G], rng: &mut SimpleRng) -> (children: (Vec<G>, Vec<G>))
        requires
            parent1@.len() == parent2@.len(),
        ensures
            children.0@.len() == parent1@.len(),
            children.1@.len() == parent1@.len(),
            self.described() ==> (children.0@, children.1@) == self.offspring(parent1@, parent2@, old(rng).state())
                && final(rng).state() == self.crossover_state(parent1@, parent2@, old(rng).state()),
    ;
}

/// At every position the two children hold the two parents' genes, one each:
/// either in the parents' order or exchanged.
pub open spec fn complementary<G>(parent1: Seq<G>, parent2: Seq<G>, child1: Seq<G>, child2: Seq<G>) -> bool {
    &&& child1.len() == parent1.len()
    &&& child2.len() == parent1.len()
    &&& forall|i: int| 0 <= i < parent1.len() ==> {
        ||| (#[trigger] child1[i] == parent1[i] && child2[i] == parent2[i])
        ||| (child1[i] == parent2[i] && child2[i] == parent1[i])
    }
}

/// The cut point single-point crossover draws from `state` for parents of
/// length `n`: an index in `1..n`.
pub open spec fn crossover_point(state: u64, n: nat) -> nat {
    1 + index_draw(state, (n - 1) as nat)
}

/// Single-point crossover: the offspring exchange the genes from a random
/// cut point onward.
#[derive(Clone)]
pub struct SinglePointCrossover;

impl<G: Copy> Crossover<G> for SinglePointCrossover {
    open spec fn described(&self) -> bool {
        true
    }

    open spec fn offspring(&self, parent1: Seq<G>, parent2: Seq<G>, state: u64) -> (Seq<G>, Seq<G>) {
        let n = parent1.len() as int;
        if n <= 1 {
            (parent1, parent2)
        } else {
            let point = crossover_point(state, n as nat) as int;
            (
                parent1.subrange(0, point) + parent2.subrange(point, n),
                parent2.subrange(0, point) + parent1.subrange(point, n),
            )
        }
    }

    open spec fn crossover_state(&self, parent1: Seq<G>, parent2: Seq<G>, state: u64) -> u64 {
        if parent1.len() <= 1 {
            state
        } else {
            lcg_next(state)
        }
    }

    fn crossover(&self, parent1: &[G], parent2: &[G], rng: &mut SimpleRng) -> (children: (Vec<G>, Vec<G>))
        ensures
            complementary(parent1@, parent2@, children.0@, children.1@),
            parent1@.len() <= 1 ==> children.0@ == parent1@ && children.1@ == parent2@
                && final(rng).state() == old(rng).state(),
            parent1@.len() > 1 ==> {
                let n = parent1@.len() as int;
                let point = crossover_point(old(rng).state(), n as nat) as int;
                &&& point == 1 + index_draw(old(rng).state(), (n - 1) as nat)
                &&& 1 <= point < n
                &&& children.0@ == parent1@.subrange(0, point) + parent2@.subrange(point, n)
                &&& children.1@ == parent2@.subrange(0, point) + parent1@.subrange(point, n)
                &&& final(rng).state() == lcg_next(old(rng).state())
            },
    {
        let n = parent1.len();
        if n <= 1 {
            return (copy_genes(parent1), copy_genes(parent2));
        }
        proof {
            lemma_index_draw_in_range(rng.state(), (n - 1) as nat);
        }
        let point = rng.gen_range_usize(1..n);
        let mut child1: Vec<G> = Vec::new();
        let mut child2: Vec<G> = Vec::new();
        for i in 0..n
            invariant
                n == parent1@.len(),
                n == parent2@.len(),
                1 <= point < n,
                child1@ == (if i <= point {
                    parent1@.subrange(0, i as int)
                } else {
                    parent1@.subrange(0, point as int) + parent2@.subrange(point as int, i as int)
                }),
                child2@ == (if i <= point {
                    parent2@.subrange(0, i as int)
                } else {
                    parent2@.subrange(0, point as int) + parent1@.subrange(point as int, i as int)
                }),
        {
            if i < point {
                child1.push(parent1[i]);
                child2.push(parent2[i]);
            } else {
                child1.push(parent2[i]);
                child2.push(parent1[i]);
            }
        }
        assert(child1@ == parent1@.subrange(0, point as int) + parent2@.subrange(point as int, n as int));
        (child1, child2)
    }
}

/// Whether uniform crossover swaps gene `i`: the draw made for it, the
/// `i`-th from `state`, falls below the swap probability.
pub open spec fn gene_swapped(state: u64, swap_prob: Probability, i: nat) -> bool {
    unit_draw(lcg_skip(state, i)) < swap_prob.scaled()
}

/// Uniform crossover: each gene position is exchanged between the
/// offspring with probability `swap_prob`.
#[derive(Clone)]
pub struct UniformCrossover {
    pub swap_prob: Probability,
}

impl<G: Copy> Crossover<G> for UniformCrossover {
    open spec fn described(&self) -> bool {
        true
    }

    open spec fn offspring(&self, parent1: Seq<G>, parent2: Seq<G>, state: u64) -> (Seq<G>, Seq<G>) {
        (
            Seq::new(parent1.len(), |i: int| if gene_swapped(state, self.swap_prob, i as nat) { parent2[i] } else { parent1[i] }),
            Seq::new(parent1.len(), |i: int| if gene_swapped(state, self.swap_prob, i as nat) { parent1[i] } else { parent2[i] }),
        )
    }

    open spec fn crossover_state(&self, parent1: Seq<G>, parent2: Seq<G>, state: u64) -> u64 {
        lcg_skip(state, parent1.len())
    }

    fn crossover(&self, parent1: &[G], parent2: &[G], rng: &mut SimpleRng) -> (children: (Vec<G>, Vec<G>))
        ensures
            complementary(parent1@, parent2@, children.0@, children.1@),
            forall|i: int| 0 <= i < parent1@.len() ==> if gene_swapped(old(rng).state(), self.swap_prob, i as nat) {
                children.0@[i] == parent2@[i] && children.1@[i] == parent1@[i]
            } else {
                children.0@[i] == parent1@[i] && children.1@[i] == parent2@[i]
            },
            forall|i: int| 0 <= i < parent1@.len() ==> (#[trigger] gene_swapped(old(rng).state(), self.swap_prob, i as nat)
                <==> unit_draw(lcg_skip(old(rng).state(), i as nat)) < self.swap_prob.scaled()),
            final(rng).state() == lcg_skip(old(rng).state(), parent1@.len()),
    {
        let n = parent1.len();
        let ghost start = rng.state();
        let mut child1: Vec<G> = Vec::new();
        let mut child2: Vec<G> = Vec::new();
        for i in 0..n
            invariant
                n == parent1@.len(),
                n == parent2@.len(),
                child1@.len() == i,
                child2@.len() == i,
                rng.state() == lcg_skip(start, i as nat),
                forall|j: int| 0 <= j < i ==> if gene_swapped(start, self.swap_prob, j as nat) {
                    child1@[j] == parent2@[j] && child2@[j] == parent1@[j]
                } else {
                    child1@[j] == parent1@[j] && child2@[j] == parent2@[j]
                },
                forall|j: int| 0 <= j < i ==> (#[trigger] gene_swapped(start, self.swap_prob, j as nat)
                    <==> unit_draw(lcg_skip(start, j as nat)) < self.swap_prob.scaled()),
        {
            if rng.gen_bool(self.swap_prob) {
                child1.push(parent2[i]);
                child2.push(parent1[i]);
            } else {
                child1.push(parent1[i]);
                child2.push(parent2[i]);
            }
        }
        proof {
            let expected = self.offspring(parent1@, parent2@, start);
            assert(child1@ =~= expected.0);
            assert(child2@ =~= expected.1);
        }
        (child1, child2)
    }
}

/// Uniform crossover swaps gene `i` exactly when the `i`-th 53-bit draw
/// from the generator lies below the swap probability's count, the same
/// test `SimpleRng::gen_bool` makes: of the 2^53 possible draws, exactly
/// `min(swap_prob, 2^53)` swap the gene. The children hold the parents'
/// genes at `i`, exchanged exactly then.
pub proof fn uniform_swaps_below_probability<G: Copy>(
    swap_prob: Probability,
    parent1: Seq<G>,
    parent2: Seq<G>,
    state: u64,
    i: int,
)
    requires
        parent1.len() == parent2.len(),
        0 <= i < parent1.len(),
    ensures
        ({
            let children = (UniformCrossover { swap_prob }).offspring(parent1, parent2, state);
            &&& children.0.len() == parent1.len()
            &&& children.1.len() == parent1.len()
            &&& unit_draw(lcg_skip(state, i as nat)) < swap_prob.scaled()
                ==> children.0[i] == parent2[i] && children.1[i] == parent1[i]
            &&& !(unit_draw(lcg_skip(state, i as nat)) < swap_prob.scaled())
                ==> children.0[i] == parent1[i] && children.1[i] == parent2[i]
        }),
{
}

/// Single-point crossover cuts at the index `SimpleRng::gen_range_usize(1..n)`
/// draws from the same generator state: `1 + index_draw(state, n - 1)`,
/// which lies in `1..n`. The first child is the first parent up to the cut
/// and the second parent from it; the second child the other way round.
pub proof fn single_point_cuts_at_drawn_index<G: Copy>(parent1: Seq<G>, parent2: Seq<G>, state: u64)
    requires
        parent1.len() == parent2.len(),
        parent1.len() >= 2,
    ensures
        ({
            let n = parent1.len() as int;
            let cut = 1 + index_draw(state, (n - 1) as nat) as int;
            let children = SinglePointCrossover.offspring(parent1, parent2, state);
            &&& 1 <= cut < n
            &&& children.0 == parent1.subrange(0, cut) + parent2.subrange(cut, n)
            &&& children.1 == parent2.subrange(0, cut) + parent1.subrange(cut, n)
            &&& forall|j: int| 0 <= j < n ==> (children.0[j] == if j < cut { parent1[j] } else { parent2[j] })
        }),
{
    let n = parent1.len() as int;
    lemma_index_draw_in_range(state, (n - 1) as nat);
    let cut = 1 + index_draw(state, (n - 1) as nat) as int;
    let children = SinglePointCrossover.offspring(parent1, parent2, state);
    assert forall|j: int| 0 <= j < n implies (children.0[j] == if j < cut { parent1[j] } else { parent2[j] }) by {
        if j >= cut {
            assert(children.0[j] == parent2.subrange(cut, n)[j - cut]);
        }
    }
}

} // verus!
