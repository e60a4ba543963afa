//! Populations: evaluation, ranking, and generational replacement with elitism.
use vstd::prelude::*;
use crate::crossover::Crossover;
use crate::fitness::{fitness_key, order_key};
use crate::mutation::Mutation;
use crate::ranking::{is_stable_order, precedes, stable_order};
use crate::rng::{Probability, SimpleRng, lcg_next, unit_draw};
use crate::fitness::is_nan;
use crate::selection::{Individual, Selection, comparable, copy_genes, scores, scores_comparable};

verus! {

/// The keys that order scores from greatest to least.
pub open spec fn descending_keys(scores: Seq<u64>) -> Seq<i64> {
    Seq::new(scores.len(), |i: int| (-order_key(scores[i])) as i64)
}

/// Position `i` holds a greatest score, and no later position does.
pub open spec fn is_last_best(scores: Seq<u64>, i: int) -> bool {
    &&& 0 <= i < scores.len()
    &&& forall|j: int| 0 <= j < scores.len() ==> order_key(#[trigger] scores[j]) <= order_key(scores[i])
    &&& forall|j: int| i < j < scores.len() ==> order_key(#[trigger] scores[j]) < order_key(scores[i])
}

/// Every individual carries `len` genes.
pub open spec fn genes_all_of_length<G>(population: Seq<Individual<G>>, len: nat) -> bool {
    forall|i: int| 0 <= i < population.len() ==> (#[trigger] population[i]).genes@.len() == len
}

/// `next` is a generation bred from `current` keeping `elites` elites:
/// it has as many individuals, it opens with the `elites` best of
/// `current` in stable descending score order, and every other member is
/// unevaluated (score 0).
pub open spec fn bred_from<G>(current: Seq<Individual<G>>, elites: nat, next: Seq<Individual<G>>) -> bool {
    &&& next.len() == current.len()
    &&& exists|order: Seq<usize>|
        #![trigger is_stable_order(descending_keys(scores(current)), order)]
        is_stable_order(descending_keys(scores(current)), order)
        && forall|p: int| 0 <= p < elites && p < current.len() ==> (#[trigger] next[p])@ == current[order[p] as int]@
    &&& forall|p: int| elites <= p < next.len() ==> (#[trigger] next[p]).fitness == 0
}

/// The number of elites a generation of `n` keeps under `elitism_count`.
pub open spec fn elite_count(elitism_count: nat, n: nat) -> nat {
    if elitism_count < n {
        elitism_count
    } else {
        n
    }
}

/// The genes of one pair of offspring bred from `current` starting at
/// generator state `state`, and the state after: two parents are selected,
/// crossed over when the next draw falls below `crossover_rate` and they
/// have equal lengths (else copied), and then the first and the second
/// child are mutated.
pub open spec fn breed_pair<G, S: Selection, C: Crossover<G>, M: Mutation<G>>(
    selection: S,
    crossover: C,
    mutation: M,
    crossover_rate: Probability,
    current: Seq<Individual<G>>,
    state: u64,
) -> (Seq<G>, Seq<G>, u64) {
    let parents = selection.selected(scores(current), state);
    let selected_state = selection.selection_state(scores(current), state);
    let genes1 = current[parents.0 as int].genes@;
    let genes2 = current[parents.1 as int].genes@;
    let crossed = unit_draw(selected_state) < crossover_rate.scaled() && genes1.len() == genes2.len();
    let drawn_state = lcg_next(selected_state);
    let children = if crossed {
        crossover.offspring(genes1, genes2, drawn_state)
    } else {
        (genes1, genes2)
    };
    let crossed_state = if crossed {
        crossover.crossover_state(genes1, genes2, drawn_state)
    } else {
        drawn_state
    };
    let first_state = mutation.mutation_state(children.0, crossed_state);
    (
        mutation.mutated(children.0, crossed_state),
        mutation.mutated(children.1, first_state),
        mutation.mutation_state(children.1, first_state),
    )
}

/// The genes of `count` offspring bred pair by pair from `current` starting
/// at generator state `state` (the second child of the last pair is dropped
/// when `count` is odd), and the state after.
pub open spec fn offspring_genes<G, S: Selection, C: Crossover<G>, M: Mutation<G>>(
    selection: S,
    crossover: C,
    mutation: M,
    crossover_rate: Probability,
    current: Seq<Individual<G>>,
    count: nat,
    state: u64,
) -> (Seq<Seq<G>>, u64)
    decreases count,
{
    if count == 0 {
        (Seq::empty(), state)
    } else {
        let pair = breed_pair(selection, crossover, mutation, crossover_rate, current, state);
        if count == 1 {
            (seq![pair.0], pair.2)
        } else {
            let rest = offspring_genes(selection, crossover, mutation, crossover_rate, current, (count - 2) as nat, pair.2);
            (seq![pair.0, pair.1] + rest.0, rest.1)
        }
    }
}

/// At a crossover rate of certainty (a count of at least 2^53), two parents
/// of equal length are always crossed over: after the two parents are
/// selected and the crossover draw is made, the first child is the
/// mutation of the crossover's first offspring, the second child the
/// mutation of its second offspring from the state the first mutation left,
/// and the generator ends after both mutations.
pub proof fn breed_pair_crosses_at_certainty<G, S: Selection, C: Crossover<G>, M: Mutation<G>>(
    selection: S,
    crossover: C,
    mutation: M,
    crossover_rate: Probability,
    current: Seq<Individual<G>>,
    state: u64,
)
    requires
        crossover_rate.scaled() >= crate::rounding::two_53(),
        ({
            let parents = selection.selected(scores(current), state);
            current[parents.0 as int].genes@.len() == current[parents.1 as int].genes@.len()
        }),
    ensures
        ({
            let parents = selection.selected(scores(current), state);
            let genes1 = current[parents.0 as int].genes@;
            let genes2 = current[parents.1 as int].genes@;
            let drawn = lcg_next(selection.selection_state(scores(current), state));
            let children = crossover.offspring(genes1, genes2, drawn);
            let crossed = crossover.crossover_state(genes1, genes2, drawn);
            let after_first = mutation.mutation_state(children.0, crossed);
            breed_pair(selection, crossover, mutation, crossover_rate, current, state) == (
                mutation.mutated(children.0, crossed),
                mutation.mutated(children.1, after_first),
                mutation.mutation_state(children.1, after_first),
            )
        }),
{
    crate::rng::probability_extremes(selection.selection_state(scores(current), state), crossover_rate);
}

/// At a crossover rate of 0 the parents are never crossed over: after the
/// two parents are selected and the crossover draw is made, the first child
/// is the mutation of the first parent's genes, the second child the
/// mutation of the second parent's genes from the state the first mutation
/// left, and the generator ends after both mutations.
pub proof fn breed_pair_copies_at_rate_zero<G, S: Selection, C: Crossover<G>, M: Mutation<G>>(
    selection: S,
    crossover: C,
    mutation: M,
    crossover_rate: Probability,
    current: Seq<Individual<G>>,
    state: u64,
)
    requires
        crossover_rate.scaled() == 0,
    ensures
        ({
            let parents = selection.selected(scores(current), state);
            let genes1 = current[parents.0 as int].genes@;
            let genes2 = current[parents.1 as int].genes@;
            let drawn = lcg_next(selection.selection_state(scores(current), state));
            let after_first = mutation.mutation_state(genes1, drawn);
            breed_pair(selection, crossover, mutation, crossover_rate, current, state) == (
                mutation.mutated(genes1, drawn),
                mutation.mutated(genes2, after_first),
                mutation.mutation_state(genes2, after_first),
            )
        }),
{
    crate::rng::probability_extremes(selection.selection_state(scores(current), state), crossover_rate);
}

/// At any crossover rate, a pair of equal-length parents is bred as at
/// certainty when the crossover draw (the first after selection) lies
/// below the rate's count, and as at rate 0 otherwise.
pub proof fn breed_pair_follows_the_draw<G, S: Selection, C: Crossover<G>, M: Mutation<G>>(
    selection: S,
    crossover: C,
    mutation: M,
    crossover_rate: Probability,
    certain: Probability,
    never: Probability,
    current: Seq<Individual<G>>,
    state: u64,
)
    requires
        certain.scaled() >= crate::rounding::two_53(),
        never.scaled() == 0,
        ({
            let parents = selection.selected(scores(current), state);
            current[parents.0 as int].genes@.len() == current[parents.1 as int].genes@.len()
        }),
    ensures
        breed_pair(selection, crossover, mutation, crossover_rate, current, state) == if unit_draw(
            selection.selection_state(scores(current), state),
        ) < crossover_rate.scaled() {
            breed_pair(selection, crossover, mutation, certain, current, state)
        } else {
            breed_pair(selection, crossover, mutation, never, current, state)
        },
{
    crate::rng::probability_extremes(selection.selection_state(scores(current), state), certain);
    crate::rng::probability_extremes(selection.selection_state(scores(current), state), never);
}

/// Offspring are bred pair by pair: breeding `count + 2` offspring from
/// `state` gives the pair bred from `state` (first child, then second),
/// followed by the `count` offspring bred from the state that pair left,
/// and ends where those leave the generator. A single offspring is the
/// first child of the pair bred from `state`.
pub proof fn offspring_come_in_pairs<G, S: Selection, C: Crossover<G>, M: Mutation<G>>(
    selection: S,
    crossover: C,
    mutation: M,
    crossover_rate: Probability,
    current: Seq<Individual<G>>,
    count: nat,
    state: u64,
)
    ensures
        ({
            let pair = breed_pair(selection, crossover, mutation, crossover_rate, current, state);
            let longer = offspring_genes(selection, crossover, mutation, crossover_rate, current, count + 2, state);
            let rest = offspring_genes(selection, crossover, mutation, crossover_rate, current, count, pair.2);
            let single = offspring_genes(selection, crossover, mutation, crossover_rate, current, 1, state);
            &&& longer.0.len() == count + 2
            &&& longer.0[0] == pair.0
            &&& longer.0[1] == pair.1
            &&& forall|q: int| 0 <= q < count ==> longer.0[q + 2] == rest.0[q]
            &&& longer.1 == rest.1
            &&& single.0 == seq![pair.0]
            &&& single.1 == pair.2
        }),
{
    let pair = breed_pair(selection, crossover, mutation, crossover_rate, current, state);
    lemma_offspring_count(selection, crossover, mutation, crossover_rate, current, count, pair.2);
    let longer = offspring_genes(selection, crossover, mutation, crossover_rate, current, count + 2, state);
    let rest = offspring_genes(selection, crossover, mutation, crossover_rate, current, count, pair.2);
    assert(longer.0 == seq![pair.0, pair.1] + rest.0);
}

/// Every offspring bred is the mutation's result on some genes from some
/// generator state: no child, first or second of its pair, escapes mutation.
pub proof fn offspring_are_mutated<G, S: Selection, C: Crossover<G>, M: Mutation<G>>(
    selection: S,
    crossover: C,
    mutation: M,
    crossover_rate: Probability,
    current: Seq<Individual<G>>,
    count: nat,
    state: u64,
)
    ensures
        forall|q: int| 0 <= q < count ==> exists|genes: Seq<G>, at: u64|
            #[trigger] offspring_genes(selection, crossover, mutation, crossover_rate, current, count, state).0[q]
                == mutation.mutated(genes, at),
    decreases count,
{
    lemma_offspring_count(selection, crossover, mutation, crossover_rate, current, count, state);
    if count >= 1 {
        let pair = breed_pair(selection, crossover, mutation, crossover_rate, current, state);
        let whole = offspring_genes(selection, crossover, mutation, crossover_rate, current, count, state);
        if count >= 2 {
            let rest_count = (count - 2) as nat;
            offspring_are_mutated(selection, crossover, mutation, crossover_rate, current, rest_count, pair.2);
            let rest = offspring_genes(selection, crossover, mutation, crossover_rate, current, rest_count, pair.2);
            assert(whole.0 == seq![pair.0, pair.1] + rest.0);
            assert forall|q: int| 0 <= q < count implies exists|genes: Seq<G>, at: u64|
                #[trigger] whole.0[q] == mutation.mutated(genes, at) by {
                if q >= 2 {
                    assert(whole.0[q] == rest.0[q - 2]);
                }
            }
        }
    }
}

/// `offspring_genes` yields `count` gene sequences.
pub proof fn lemma_offspring_count<G, S: Selection, C: Crossover<G>, M: Mutation<G>>(
    selection: S,
    crossover: C,
    mutation: M,
    crossover_rate: Probability,
    current: Seq<Individual<G>>,
    count: nat,
    state: u64,
)
    ensures
        offspring_genes(selection, crossover, mutation, crossover_rate, current, count, state).0.len() == count,
    decreases count,
{
    if count >= 2 {
        let pair = breed_pair(selection, crossover, mutation, crossover_rate, current, state);
        lemma_offspring_count(selection, crossover, mutation, crossover_rate, current, (count - 2) as nat, pair.2);
    }
}

/// `fitness_fn` scores genes by their values alone: two calls on equal
/// genes give the same score.
pub open spec fn scores_by_genes<G, F: Fn(&Vec<G>) -> u64>(fitness_fn: F) -> bool {
    forall|a: &Vec<G>, b: &Vec<G>, ra: u64, rb: u64|
        a@ == b@ && #[trigger] call_ensures(fitness_fn, (a,), ra) && #[trigger] call_ensures(fitness_fn, (b,), rb)
        ==> ra == rb
}

/// `scored` is `population` with every individual's genes kept and its
/// score replaced by one that `fitness_fn` gives for those genes.
pub open spec fn scored_by<G, F: Fn(&Vec<G>) -> u64>(
    fitness_fn: F,
    population: Seq<Individual<G>>,
    scored: Seq<Individual<G>>,
) -> bool {
    &&& scored.len() == population.len()
    &&& forall|i: int| 0 <= i < population.len() ==> {
        &&& (#[trigger] scored[i]).genes == population[i].genes
        &&& call_ensures(fitness_fn, (&population[i].genes,), scored[i].fitness)
    }
}

/// One breeding step from `current` keeping `elitism_count` elites, the
/// generator going from `state` to `next_state`: `bred` is bred from
/// `current`; no draw is made when the elites fill the generation; and
/// where all three operators are described, the offspring genes and the
/// final state are those of `offspring_genes`.
pub open spec fn breeding_step<G, S: Selection, C: Crossover<G>, M: Mutation<G>>(
    selection: S,
    crossover: C,
    mutation: M,
    crossover_rate: Probability,
    elitism_count: nat,
    current: Seq<Individual<G>>,
    state: u64,
    bred: Seq<Individual<G>>,
    next_state: u64,
) -> bool {
    &&& bred_from(current, elitism_count, bred)
    &&& elitism_count >= current.len() ==> next_state == state
    &&& selection.described() && crossover.described() && mutation.described() ==> {
        let e = elite_count(elitism_count, current.len());
        let offspring = offspring_genes(selection, crossover, mutation, crossover_rate, current,
            (current.len() - e) as nat, state);
        &&& forall|p: int| e <= p < bred.len() ==> (#[trigger] bred[p]).genes@ == offspring.0[p - e]
        &&& next_state == offspring.1
    }
}

/// The history of a run of `generations` generations from `start`, the
/// generator starting at `start_state`: `scored[0]` is `start` scored by
/// `fitness_fn`; for each generation `t`, `bred[t]` is bred from
/// `scored[t]` while the generator goes from `states[t]` to `states[t + 1]`,
/// and `scored[t + 1]` is `bred[t]` scored by `fitness_fn`.
pub open spec fn run_history<G, S: Selection, C: Crossover<G>, M: Mutation<G>, F: Fn(&Vec<G>) -> u64>(
    selection: S,
    crossover: C,
    mutation: M,
    crossover_rate: Probability,
    elitism_count: nat,
    fitness_fn: F,
    start: Seq<Individual<G>>,
    start_state: u64,
    generations: nat,
    scored: Seq<Seq<Individual<G>>>,
    bred: Seq<Seq<Individual<G>>>,
    states: Seq<u64>,
) -> bool {
    &&& scored.len() == generations + 1
    &&& bred.len() == generations
    &&& states.len() == generations + 1
    &&& states[0] == start_state
    &&& scored_by(fitness_fn, start, scored[0])
    &&& forall|t: int| 0 <= t < generations ==> {
        &&& #[trigger] breeding_step(selection, crossover, mutation, crossover_rate, elitism_count,
            scored[t], states[t], bred[t], states[t + 1])
        &&& scored_by(fitness_fn, bred[t], scored[t + 1])
    }
}

/// A population with its elitism setting.
pub struct Population<G> {
    pub individuals: Vec<Individual<G>>,
    pub elitism_count: usize,
}

impl<G: Copy> Population<G> {
    /// Scores every individual with `fitness_fn`.
    pub fn evaluate<F: Fn(&Vec<G>) -> u64>(&mut self, fitness_fn: &F)
        requires
            forall|i: int| 0 <= i < old(self).individuals@.len()
                ==> call_requires(*fitness_fn, (&(#[trigger] old(self).individuals@[i]).genes,)),
        ensures
            final(self).elitism_count == old(self).elitism_count,
            final(self).individuals@.len() == old(self).individuals@.len(),
            forall|i: int| 0 <= i < old(self).individuals@.len() ==> {
                &&& (#[trigger] final(self).individuals@[i]).genes == old(self).individuals@[i].genes
                &&& call_ensures(*fitness_fn, (&old(self).individuals@[i].genes,), final(self).individuals@[i].fitness)
            },
    {
        let n = self.individuals.len();
        let ghost before = self.individuals@;
        let ghost elites = self.elitism_count;
        for i in 0..n
            invariant
                n == before.len(),
                self.elitism_count == elites,
                self.individuals@.len() == n,
                forall|j: int| 0 <= j < n ==> call_requires(*fitness_fn, (&(#[trigger] before[j]).genes,)),
                forall|j: int| 0 <= j < n ==> (#[trigger] self.individuals@[j]).genes == before[j].genes,
                forall|j: int| 0 <= j < i ==> call_ensures(*fitness_fn, (&before[j].genes,), (#[trigger] self.individuals@[j]).fitness),
        {
            let score = fitness_fn(&self.individuals[i].genes);
            self.individuals[i].fitness = score;
        }
    }

    /// The individual with the greatest score; among equals, the last.
    pub fn best(&self) -> (best: &Individual<G>)
        requires
            self.individuals@.len() > 0,
            scores_comparable(self.individuals@),
        ensures
            exists|i: int| is_last_best(scores(self.individuals@), i) && *best == self.individuals@[i],
    {
        let i = self.best_index();
        &self.individuals[i]
    }

    /// The position of the individual with the greatest score; among equals, the last.
    fn best_index(&self) -> (i: usize)
        requires
            self.individuals@.len() > 0,
            scores_comparable(self.individuals@),
        ensures
            is_last_best(scores(self.individuals@), i as int),
    {
        let n = self.individuals.len();
        let ghost s = scores(self.individuals@);
        let mut best_index: usize = 0;
        let mut best_key = fitness_key(self.individuals[0].fitness);
        for i in 1..n
            invariant
                n == self.individuals@.len(),
                s == scores(self.individuals@),
                best_index < i,
                best_key == order_key(s[best_index as int]),
                forall|j: int| 0 <= j < i ==> order_key(#[trigger] s[j]) <= best_key,
                forall|j: int| best_index < j < i ==> order_key(#[trigger] s[j]) < best_key,
        {
            let key = fitness_key(self.individuals[i].fitness);
            if key >= best_key {
                best_index = i;
                best_key = key;
            }
        }
        best_index
    }

    /// Breeds the next generation: the `elitism_count` best individuals are
    /// carried over, then pairs of offspring are added until the generation
    /// is full. Each pair comes from two selected parents, crossed over with
    /// probability `crossover_rate` (else copied), and then both mutated.
    /// Parents of unequal lengths are never crossed over: they are copied
    /// even when the draw calls for a crossover.
    pub fn evolve<S: Selection, C: Crossover<G>, M: Mutation<G>>(
        &self,
        selection: &S,
        crossover: &C,
        mutation: &M,
        crossover_rate: Probability,
        rng: &mut SimpleRng,
    ) -> (next: Population<G>)
        requires
            scores_comparable(self.individuals@),
            self.elitism_count < self.individuals@.len() ==> selection.accepts(scores(self.individuals@)),
        ensures
            next.elitism_count == self.elitism_count,
            bred_from(self.individuals@, self.elitism_count as nat, next.individuals@),
            forall|len: nat| #[trigger] genes_all_of_length(self.individuals@, len)
                ==> genes_all_of_length(next.individuals@, len),
            self.elitism_count >= self.individuals@.len() ==> final(rng).state() == old(rng).state(),
            selection.described() && crossover.described() && mutation.described() ==> {
                let e = elite_count(self.elitism_count as nat, self.individuals@.len());
                let bred = offspring_genes(*selection, *crossover, *mutation, crossover_rate,
                    self.individuals@, (self.individuals@.len() - e) as nat, old(rng).state());
                &&& forall|p: int| e <= p < next.individuals@.len()
                    ==> (#[trigger] next.individuals@[p]).genes@ == bred.0[p - e]
                &&& final(rng).state() == bred.1
            },
    {
        let n = self.individuals.len();
        let order = descending_order(&self.individuals);
        let elites = if self.elitism_count < n {
            self.elitism_count
        } else {
            n
        };
        let mut next: Vec<Individual<G>> = Vec::new();
        for p in 0..elites
            invariant
                elites <= n,
                n == self.individuals@.len(),
                order@.len() == n,
                is_stable_order(descending_keys(scores(self.individuals@)), order@),
                next@.len() == p,
                forall|q: int| 0 <= q < p ==> (#[trigger] next@[q])@ == self.individuals@[order@[q] as int]@,
        {
            next.push(self.individuals[order[p]].duplicate());
        }
        let ghost current = self.individuals@;
        let ghost start = rng.state();
        let ghost all_described = selection.described() && crossover.described() && mutation.described();
        let ghost bred = offspring_genes(*selection, *crossover, *mutation, crossover_rate, current, (n - elites) as nat, start);
        proof {
            lemma_offspring_count(*selection, *crossover, *mutation, crossover_rate, current, (n - elites) as nat, start);
        }
        while next.len() < n
            invariant
                elites <= n,
                elites == elite_count(self.elitism_count as nat, n as nat),
                n == self.individuals@.len(),
                current == self.individuals@,
                self.elitism_count < n ==> selection.accepts(scores(current)),
                elites <= next@.len() <= n,
                next@.len() == elites ==> rng.state() == start,
                order@.len() == n,
                forall|q: int| 0 <= q < elites ==> (#[trigger] next@[q])@ == self.individuals@[order@[q] as int]@,
                forall|q: int| elites <= q < next@.len() ==> (#[trigger] next@[q]).fitness == 0,
                forall|q: int, len: nat| elites <= q < next@.len() && #[trigger] genes_all_of_length(current, len)
                    ==> (#[trigger] next@[q]).genes@.len() == len,
                all_described == (selection.described() && crossover.described() && mutation.described()),
                bred == offspring_genes(*selection, *crossover, *mutation, crossover_rate, current, (n - elites) as nat, start),
                bred.0.len() == n - elites,
                all_described ==> {
                    let rest = offspring_genes(*selection, *crossover, *mutation, crossover_rate, current,
                        (n - next@.len()) as nat, rng.state());
                    &&& rest.1 == bred.1
                    &&& rest.0.len() == n - next@.len()
                    &&& forall|q: int| 0 <= q < rest.0.len() ==> rest.0[q] == bred.0[next@.len() - elites + q]
                    &&& forall|q: int| elites <= q < next@.len() ==> (#[trigger] next@[q]).genes@ == bred.0[q - elites]
                },
            decreases n - next.len(),
        {
            let ghost before = next@;
            let ghost state0 = rng.state();
            let ghost remaining = (n - next@.len()) as nat;
            let parents = selection.select(self.individuals.as_slice(), rng);
            let parent1 = self.individuals[parents.0].genes.as_slice();
            let parent2 = self.individuals[parents.1].genes.as_slice();
            let drawn = rng.gen_bool(crossover_rate);
            let crossed = drawn && parent1.len() == parent2.len();
            let children = if crossed {
                crossover.crossover(parent1, parent2, rng)
            } else {
                (copy_genes(parent1), copy_genes(parent2))
            };
            let (mut child1, mut child2) = children;
            mutation.mutate(&mut child1, rng);
            mutation.mutate(&mut child2, rng);
            proof {
                let pair = breed_pair(*selection, *crossover, *mutation, crossover_rate, current, state0);
                if all_described {
                    assert(child1@ == pair.0);
                    assert(child2@ == pair.1);
                    assert(rng.state() == pair.2);
                    lemma_offspring_count(*selection, *crossover, *mutation, crossover_rate, current, remaining, state0);
                    if remaining >= 2 {
                        lemma_offspring_count(*selection, *crossover, *mutation, crossover_rate, current,
                            (remaining - 2) as nat, pair.2);
                    }
                }
            }
            next.push(Individual { genes: child1, fitness: 0 });
            if next.len() < n {
                next.push(Individual { genes: child2, fitness: 0 });
            }
            proof {
                let pair = breed_pair(*selection, *crossover, *mutation, crossover_rate, current, state0);
                let whole = offspring_genes(*selection, *crossover, *mutation, crossover_rate, current, remaining, state0);
                if all_described {
                    if remaining == 1 {
                        assert(whole.0 == seq![pair.0]);
                    } else {
                        let rest = offspring_genes(*selection, *crossover, *mutation, crossover_rate, current,
                            (remaining - 2) as nat, pair.2);
                        assert(whole.0 == seq![pair.0, pair.1] + rest.0);
                        assert forall|q: int| 0 <= q < rest.0.len()
                            implies rest.0[q] == bred.0[next@.len() - elites + q] by {
                            assert(rest.0[q] == whole.0[q + 2]);
                        }
                    }
                    assert forall|q: int| elites <= q < next@.len()
                        implies (#[trigger] next@[q]).genes@ == bred.0[q - elites] by {
                        if q >= before.len() {
                            assert(whole.0[q - before.len()] == bred.0[before.len() - elites + (q - before.len())]);
                        }
                    }
                }
            }
        }
        assert(next@.len() == n);
        Population { individuals: next, elitism_count: self.elitism_count }
    }

    /// Sorts the individuals by descending score; equal scores keep their order.
    pub fn sort_by_fitness(&mut self)
        requires
            scores_comparable(old(self).individuals@),
        ensures
            final(self).elitism_count == old(self).elitism_count,
            final(self).individuals@.len() == old(self).individuals@.len(),
            exists|order: Seq<usize>|
                #![trigger is_stable_order(descending_keys(scores(old(self).individuals@)), order)]
                is_stable_order(descending_keys(scores(old(self).individuals@)), order)
                && forall|p: int| 0 <= p < order.len()
                    ==> (#[trigger] final(self).individuals@[p])@ == old(self).individuals@[order[p] as int]@,
    {
        let order = descending_order(&self.individuals);
        let n = self.individuals.len();
        let mut sorted: Vec<Individual<G>> = Vec::new();
        for p in 0..n
            invariant
                n == self.individuals@.len(),
                is_stable_order(descending_keys(scores(self.individuals@)), order@),
                sorted@.len() == p,
                forall|q: int| 0 <= q < p ==> (#[trigger] sorted@[q])@ == self.individuals@[order@[q] as int]@,
        {
            sorted.push(self.individuals[order[p]].duplicate());
        }
        self.individuals = sorted;
    }

    /// Runs the algorithm from this population: scores it, then breeds and
    /// scores `max_generations` generations in turn, and returns the best
    /// individual of the last one (the last of equals).
    pub fn run<S: Selection, C: Crossover<G>, M: Mutation<G>, F: Fn(&Vec<G>) -> u64>(
        self,
        rng: &mut SimpleRng,
        fitness_fn: &F,
        selection: &S,
        crossover: &C,
        mutation: &M,
        crossover_rate: Probability,
        max_generations: usize,
    ) -> (best: Individual<G>)
        requires
            self.individuals@.len() > 0,
            forall|g: &Vec<G>| #[trigger] call_requires(*fitness_fn, (g,)),
            self.individuals@.len() >= 2 ==> forall|g: &Vec<G>, r: u64|
                #[trigger] call_ensures(*fitness_fn, (g,), r) ==> !is_nan(r),
            forall|s: Seq<u64>| s.len() == self.individuals@.len() && comparable(s)
                ==> #[trigger] selection.accepts(s),
        ensures
            call_ensures(*fitness_fn, (&best.genes,), best.fitness),
            forall|len: nat| #[trigger] genes_all_of_length(self.individuals@, len) ==> best.genes@.len() == len,
            scores_by_genes(*fitness_fn) && self.elitism_count >= 1 ==> forall|j: int, r: u64|
                0 <= j < self.individuals@.len() && #[trigger] call_ensures(*fitness_fn, (&self.individuals@[j].genes,), r)
                ==> order_key(r) <= order_key(best.fitness),
            max_generations == 0 ==> final(rng).state() == old(rng).state(),
            exists|scored: Seq<Seq<Individual<G>>>, bred: Seq<Seq<Individual<G>>>, states: Seq<u64>|
                #![trigger run_history(*selection, *crossover, *mutation, crossover_rate, self.elitism_count as nat,
                    *fitness_fn, self.individuals@, old(rng).state(), max_generations as nat, scored, bred, states)]
                {
                    &&& run_history(*selection, *crossover, *mutation, crossover_rate, self.elitism_count as nat,
                        *fitness_fn, self.individuals@, old(rng).state(), max_generations as nat, scored, bred, states)
                    &&& states[max_generations as int] == final(rng).state()
                    &&& exists|i: int| is_last_best(scores(scored[max_generations as int]), i)
                        && best == scored[max_generations as int][i]
                },
    {
        let ghost initial = self.individuals@;
        let ghost n = initial.len();
        let ghost elitism = self.elitism_count;
        let ghost start = rng.state();
        let mut pop = self;
        pop.evaluate(fitness_fn);
        let ghost first = pop.individuals@;
        let ghost mut history: Seq<Seq<Individual<G>>> = seq![first];
        let ghost mut bred_history: Seq<Seq<Individual<G>>> = Seq::empty();
        let ghost mut states: Seq<u64> = seq![start];
        proof {
            assert(history[0] == first);
            assert(scored_by(*fitness_fn, initial, first));
        }
        let mut generation: usize = 0;
        while generation < max_generations
            invariant
                generation <= max_generations,
                n == initial.len(),
                n > 0,
                pop.individuals@.len() == n,
                pop.elitism_count == elitism,
                forall|g: &Vec<G>| #[trigger] call_requires(*fitness_fn, (g,)),
                n >= 2 ==> forall|g: &Vec<G>, r: u64| #[trigger] call_ensures(*fitness_fn, (g,), r) ==> !is_nan(r),
                forall|s: Seq<u64>| s.len() == n && comparable(s) ==> #[trigger] selection.accepts(s),
                forall|k: int| 0 <= k < n
                    ==> call_ensures(*fitness_fn, (&(#[trigger] pop.individuals@[k]).genes,), pop.individuals@[k].fitness),
                forall|len: nat| #[trigger] genes_all_of_length(initial, len)
                    ==> genes_all_of_length(pop.individuals@, len),
                generation == 0 ==> pop.individuals@ == first && rng.state() == start,
                run_history(*selection, *crossover, *mutation, crossover_rate, elitism as nat, *fitness_fn,
                    initial, start, generation as nat, history, bred_history, states),
                history[generation as int] == pop.individuals@,
                states[generation as int] == rng.state(),
                first.len() == n,
                forall|j: int| 0 <= j < n ==> (#[trigger] first[j]).genes == initial[j].genes,
                generation > 0 && scores_by_genes(*fitness_fn) && elitism >= 1 ==> forall|j: int, r: u64|
                    0 <= j < n && #[trigger] call_ensures(*fitness_fn, (&initial[j].genes,), r)
                    ==> order_key(r) <= order_key(pop.individuals@[0].fitness),
            decreases max_generations - generation,
        {
            let ghost current = pop.individuals@;
            proof {
                assert(scores(current).len() == n);
                if n >= 2 {
                    assert forall|k: int| 0 <= k < n implies !is_nan(#[trigger] current[k].fitness) by {
                        assert(call_ensures(*fitness_fn, (&current[k].genes,), current[k].fitness));
                    }
                    assert forall|k: int| 0 <= k < n implies !is_nan(#[trigger] scores(current)[k]) by {
                        assert(!is_nan(current[k].fitness));
                    }
                }
                assert(comparable(scores(current)));
            }
            let ghost state0 = rng.state();
            let bred = pop.evolve(selection, crossover, mutation, crossover_rate, rng);
            let ghost unscored = bred.individuals@;
            pop = bred;
            pop.evaluate(fitness_fn);
            proof {
                let next = pop.individuals@;
                let g = generation as int;
                assert(breeding_step(*selection, *crossover, *mutation, crossover_rate, elitism as nat,
                    current, state0, unscored, rng.state()));
                assert(scored_by(*fitness_fn, unscored, next));
                let old_history = history;
                let old_bred = bred_history;
                let old_states = states;
                history = history.push(next);
                bred_history = bred_history.push(unscored);
                states = states.push(rng.state());
                assert forall|t: int| 0 <= t < g + 1 implies {
                    &&& #[trigger] breeding_step(*selection, *crossover, *mutation, crossover_rate, elitism as nat,
                        history[t], states[t], bred_history[t], states[t + 1])
                    &&& scored_by(*fitness_fn, bred_history[t], history[t + 1])
                } by {
                    if t < g {
                        assert(history[t] == old_history[t]);
                        assert(history[t + 1] == old_history[t + 1]);
                        assert(states[t] == old_states[t]);
                        assert(states[t + 1] == old_states[t + 1]);
                        assert(bred_history[t] == old_bred[t]);
                        assert(breeding_step(*selection, *crossover, *mutation, crossover_rate, elitism as nat,
                            old_history[t], old_states[t], old_bred[t], old_states[t + 1]));
                    } else {
                        assert(history[t] == current);
                        assert(states[t] == state0);
                    }
                }
                assert(history[0] == old_history[0]);
                assert forall|len: nat| #[trigger] genes_all_of_length(initial, len)
                    implies genes_all_of_length(next, len) by {
                    assert(genes_all_of_length(unscored, len));
                    assert forall|i: int| 0 <= i < n implies (#[trigger] next[i]).genes@.len() == len by {
                        assert(unscored[i].genes@.len() == len);
                    }
                }
                assert forall|k: int| 0 <= k < n
                    implies call_ensures(*fitness_fn, (&(#[trigger] next[k]).genes,), next[k].fitness) by {
                    assert(next[k].genes == unscored[k].genes);
                }
                if scores_by_genes(*fitness_fn) && elitism >= 1 {
                    elitism_keeps_best(current, elitism as nat, unscored);
                    let k = choose|k: int| 0 <= k < n && unscored[0]@ == (#[trigger] current[k])@;
                    assert(next[0].genes == unscored[0].genes);
                    assert(call_ensures(*fitness_fn, (&current[k].genes,), current[k].fitness));
                    assert(call_ensures(*fitness_fn, (&next[0].genes,), next[0].fitness));
                    assert(next[0].fitness == current[k].fitness);
                    assert forall|j: int, r: u64|
                        0 <= j < n && #[trigger] call_ensures(*fitness_fn, (&initial[j].genes,), r)
                        implies order_key(r) <= order_key(next[0].fitness) by {
                        if generation == 0 {
                            assert(call_ensures(*fitness_fn, (&current[j].genes,), current[j].fitness));
                            assert(current[j].genes == initial[j].genes);
                            assert(order_key(current[j].fitness) <= order_key(unscored[0].fitness));
                        } else {
                            assert(order_key(current[0].fitness) <= order_key(unscored[0].fitness));
                        }
                    }
                }
            }
            generation = generation + 1;
        }
        let ghost last = pop.individuals@;
        proof {
            if n >= 2 {
                assert forall|k: int| 0 <= k < n implies !is_nan(#[trigger] last[k].fitness) by {
                    assert(call_ensures(*fitness_fn, (&last[k].genes,), last[k].fitness));
                }
            }
        }
        let i = pop.best_index();
        let best = pop.individuals.swap_remove(i);
        proof {
            assert(best == last[i as int]);
            assert(call_ensures(*fitness_fn, (&last[i as int].genes,), last[i as int].fitness));
            assert forall|len: nat| #[trigger] genes_all_of_length(initial, len) implies best.genes@.len() == len by {
                assert(genes_all_of_length(last, len));
                assert(last[i as int].genes@.len() == len);
            }
            if scores_by_genes(*fitness_fn) && elitism >= 1 {
                assert forall|j: int, r: u64|
                    0 <= j < n && #[trigger] call_ensures(*fitness_fn, (&initial[j].genes,), r)
                    implies order_key(r) <= order_key(best.fitness) by {
                    if generation == 0 {
                        assert(call_ensures(*fitness_fn, (&last[j].genes,), last[j].fitness));
                        assert(last[j].genes == initial[j].genes);
                        assert(order_key(scores(last)[j]) <= order_key(scores(last)[i as int]));
                    } else {
                        assert(order_key(scores(last)[0]) <= order_key(scores(last)[i as int]));
                    }
                }
            }
            assert(is_last_best(scores(history[generation as int]), i as int));
            assert(best == history[generation as int][i as int]);
        }
        best
    }
}

/// Elitism keeps the best: when a bred generation keeps at least one elite,
/// its first member scores at least as high as every member of the
/// generation it was bred from.
pub proof fn elitism_keeps_best<G>(current: Seq<Individual<G>>, elites: nat, next: Seq<Individual<G>>)
    requires
        bred_from(current, elites, next),
        elites >= 1,
        current.len() >= 1,
    ensures
        forall|j: int| 0 <= j < current.len()
            ==> order_key(#[trigger] current[j].fitness) <= order_key(next[0].fitness),
        exists|k: int| 0 <= k < current.len() && next[0]@ == (#[trigger] current[k])@,
{
    let keys = descending_keys(scores(current));
    let order = choose|order: Seq<usize>|
        #![trigger is_stable_order(keys, order)]
        is_stable_order(keys, order)
        && forall|p: int| 0 <= p < elites && p < current.len() ==> (#[trigger] next[p])@ == current[order[p] as int]@;
    crate::ranking::lemma_stable_order_is_permutation(keys, order);
    assert(next[0]@ == current[order[0] as int]@);
    assert forall|j: int| 0 <= j < current.len()
        implies order_key(#[trigger] current[j].fitness) <= order_key(next[0].fitness) by {
        assert(crate::ranking::lists(order, j));
        let p = choose|p: int| 0 <= p < order.len() && order[p] == j;
        if p > 0 {
            assert(precedes(keys, order[0] as int, order[p] as int));
        }
    }
}

/// The positions of `individuals` in stable descending score order.
fn descending_order<G>(individuals: &Vec<Individual<G>>) -> (order: Vec<usize>)
    ensures
        is_stable_order(descending_keys(scores(individuals@)), order@),
        order@.len() == individuals@.len(),
{
    let n = individuals.len();
    let ghost target = descending_keys(scores(individuals@));
    let mut keys: Vec<i64> = Vec::new();
    for i in 0..n
        invariant
            n == individuals@.len(),
            target == descending_keys(scores(individuals@)),
            keys@ == target.subrange(0, i as int),
    {
        let key = fitness_key(individuals[i].fitness);
        keys.push(-key);
    }
    assert(keys@ == target);
    stable_order(&keys)
}

} // verus!
