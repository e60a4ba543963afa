//! Individuals and the parent-selection strategies: tournament and rank-based.
use vstd::prelude::*;
use crate::fitness::{fitness_gt, fitness_greater, fitness_key, is_nan, order_key};
use crate::ranking::{is_stable_order, stable_order};
use crate::rng::{SimpleRng, index_draw, lcg_next, lcg_skip, lemma_index_draw_in_range, unit_draw};
use crate::rounding::{round53, round53_exec, two_53};
use vstd::arithmetic::power2::pow2;

verus! {

/// A candidate solution: its genes and its fitness score, the score held
/// as its 64-bit IEEE-754 binary64 encoding.
#[derive(Clone, Debug)]
pub struct Individual<G> {
    pub genes: Vec<G>,
    pub fitness: u64,
}

/// The mathematical content of an individual.
pub struct IndividualView<G> {
    pub genes: Seq<G>,
    pub fitness: u64,
}

impl<G> View for Individual<G> {
    type V = IndividualView<G>;

    open spec fn view(&self) -> IndividualView<G> {
        IndividualView { genes: self.genes@, fitness: self.fitness }
    }
}

impl<G: Copy> Individual<G> {
    /// A copy of this individual.
    pub fn duplicate(&self) -> (copy: Self)
        ensures
            copy@ == self@,
    {
        Individual { genes: copy_genes(self.genes.as_slice()), fitness: self.fitness }
    }
}

/// A fresh vector holding `genes`.
pub(crate) fn copy_genes<G: Copy>(genes: &[G]) -> (copy: Vec<G>)
    ensures
        copy@ == genes@,
{
    let mut copy: Vec<G> = Vec::new();
    for i in 0..genes.len()
        invariant
            copy@ == genes@.subrange(0, i as int),
    {
        copy.push(genes[i]);
    }
    copy
}

/// The fitness scores of a population, in order.
pub open spec fn scores<G>(population: Seq<Individual<G>>) -> Seq<u64> {
    Seq::new(population.len(), |i: int| population[i].fitness)
}

/// Scores can be compared pairwise: a population of two or more has no NaN score.
pub open spec fn scores_comparable<G>(population: Seq<Individual<G>>) -> bool {
    population.len() >= 2 ==> forall|i: int| 0 <= i < population.len() ==> !is_nan(#[trigger] population[i].fitness)
}

/// A score sequence of two or more holds no NaN.
pub open spec fn comparable(scores: Seq<u64>) -> bool {
    scores.len() >= 2 ==> forall|i: int| 0 <= i < scores.len() ==> !is_nan(#[trigger] scores[i])
}

/// The population size for which the count `n * (n + 1)` of rank
/// selection fits in a `usize`.
pub open spec fn population_fits(n: nat) -> bool {
    n * (n + 1) <= usize::MAX
}

/// Parent selection.
///
/// A strategy whose `described` is true promises that its draws are those
/// given by `selected` and `selection_state`; for a strategy that leaves
/// `described` false, these two say nothing.
pub trait Selection {
    /// Whether `selected` and `selection_state` describe this strategy.
    open spec fn described(&self) -> bool {
        false
    }

    /// The score sequences this strategy can select from.
    open spec fn accepts(&self, scores: Seq<u64>) -> bool {
        true
    }

    /// The positions selected from `scores` starting at generator state `state`.
    open spec fn selected(&self, scores: Seq<u64>, state: u64) -> (nat, nat) {
        (0, 0)
    }

    /// The generator state after selecting from `scores` starting at `state`.
    open spec fn selection_state(&self, scores: Seq<u64>, state: u64) -> u64 {
        state
    }

    /// Selects the positions of two parents in `population`.
    fn select<G>(&self, population: &[Individual<G>], rng: &mut SimpleRng) -> (parents: (usize, usize))
        requires
            population@.len() > 0,
            self.accepts(scores(population@)),
        ensures
            parents.0 < population@.len(),
            parents.1 < population@.len(),
            self.described() ==> (parents.0 as nat, parents.1 as nat) == self.selected(scores(population@), old(rng).state())
                && final(rng).state() == self.selection_state(scores(population@), old(rng).state()),
    ;
}

/// Rounds a tournament of the given size holds: one contestant per round,
/// and at least one round.
pub open spec fn tournament_rounds(size: nat) -> nat {
    if size == 0 {
        1
    } else {
        size
    }
}

/// The contestant drawn in round `round` of a tournament over `n`
/// individuals that starts from generator state `state`.
pub open spec fn tournament_contestant(state: u64, n: nat, round: nat) -> nat {
    index_draw(lcg_skip(state, round), n)
}

/// The leader after round `round`: a contestant replaces the leader only
/// when its score is greater.
pub open spec fn tournament_leader(state: u64, scores: Seq<u64>, round: nat) -> nat
    decreases round,
{
    let contestant = tournament_contestant(state, scores.len(), round);
    if round == 0 {
        contestant
    } else {
        let leader = tournament_leader(state, scores, (round - 1) as nat);
        if fitness_gt(scores[contestant as int], scores[leader as int]) {
            contestant
        } else {
            leader
        }
    }
}

/// The winner of a tournament of `size` contestants started from `state`.
pub open spec fn tournament_winner(state: u64, scores: Seq<u64>, size: nat) -> nat {
    tournament_leader(state, scores, (tournament_rounds(size) - 1) as nat)
}

/// Tournament selection: each parent is the best of `tournament_size`
/// individuals drawn at random, with repetition.
#[derive(Clone)]
pub struct TournamentSelection {
    pub tournament_size: usize,
}

impl TournamentSelection {
    /// A tournament of the given size; the size must be positive.
    pub fn new(tournament_size: usize) -> (selection: Self)
        requires
            tournament_size > 0,
        ensures
            selection.tournament_size == tournament_size,
    {
        Self { tournament_size }
    }

    /// Selects two parents, each the winner of its own tournament; the
    /// scores may include NaNs, which never win against a contestant. From
    /// an empty population a tournament of one gives `(0, 0)`.
    pub fn select<G>(&self, population: &[Individual<G>], rng: &mut SimpleRng) -> (parents: (usize, usize))
        requires
            0 < population@.len() || self.tournament_size <= 1,
        ensures
            0 < population@.len() ==> parents.0 < population@.len() && parents.1 < population@.len(),
            population@.len() == 0 ==> parents == (0usize, 0usize),
            parents.0 == tournament_winner(old(rng).state(), scores(population@), self.tournament_size as nat),
            parents.1 == tournament_winner(
                lcg_skip(old(rng).state(), tournament_rounds(self.tournament_size as nat)),
                scores(population@),
                self.tournament_size as nat,
            ),
            final(rng).state() == lcg_skip(
                lcg_skip(old(rng).state(), tournament_rounds(self.tournament_size as nat)),
                tournament_rounds(self.tournament_size as nat),
            ),
    {
        let first = self.pick_best(population, rng);
        let second = self.pick_best(population, rng);
        (first, second)
    }

    /// Runs one tournament.
    fn pick_best<G>(&self, population: &[Individual<G>], rng: &mut SimpleRng) -> (winner: usize)
        requires
            0 < population@.len() || self.tournament_size <= 1,
        ensures
            winner == tournament_winner(old(rng).state(), scores(population@), self.tournament_size as nat),
            0 < population@.len() ==> winner < population@.len(),
            population@.len() == 0 ==> winner == 0,
            final(rng).state() == lcg_skip(old(rng).state(), tournament_rounds(self.tournament_size as nat)),
    {
        let n = population.len();
        let ghost start = rng.state();
        let ghost fit = scores(population@);
        proof {
            lemma_index_draw_in_range(rng.state(), n as nat);
            assert(lcg_skip(start, 0) == start);
        }
        let mut best = rng.gen_range_usize(0..n);
        let mut round: usize = 1;
        while round < self.tournament_size
            invariant
                n == population@.len(),
                0 < n || self.tournament_size <= 1,
                fit == scores(population@),
                1 <= round,
                round <= tournament_rounds(self.tournament_size as nat),
                0 < n ==> best < n,
                n == 0 ==> best == 0,
                best == tournament_leader(start, fit, (round - 1) as nat),
                rng.state() == lcg_skip(start, round as nat),
            decreases self.tournament_size - round,
        {
            proof {
                lemma_index_draw_in_range(rng.state(), n as nat);
            }
            let idx = rng.gen_range_usize(0..n);
            if fitness_greater(population[idx].fitness, population[best].fitness) {
                best = idx;
            }
            round = round + 1;
        }
        best
    }
}

impl Selection for TournamentSelection {
    open spec fn described(&self) -> bool {
        true
    }

    open spec fn selected(&self, scores: Seq<u64>, state: u64) -> (nat, nat) {
        let rounds = tournament_rounds(self.tournament_size as nat);
        (
            tournament_winner(state, scores, self.tournament_size as nat),
            tournament_winner(lcg_skip(state, rounds), scores, self.tournament_size as nat),
        )
    }

    open spec fn selection_state(&self, scores: Seq<u64>, state: u64) -> u64 {
        let rounds = tournament_rounds(self.tournament_size as nat);
        lcg_skip(lcg_skip(state, rounds), rounds)
    }

    fn select<G>(&self, population: &[Individual<G>], rng: &mut SimpleRng) -> (parents: (usize, usize))
        ensures
            parents.0 == tournament_winner(old(rng).state(), scores(population@), self.tournament_size as nat),
            parents.1 == tournament_winner(
                lcg_skip(old(rng).state(), tournament_rounds(self.tournament_size as nat)),
                scores(population@),
                self.tournament_size as nat,
            ),
    {
        TournamentSelection::select(self, population, rng)
    }
}

/// Selection through the `Selection` interface holds two tournaments in
/// turn: the first parent wins the tournament drawn from `state`, and the
/// second parent is the first parent of a selection started where the
/// first tournament's rounds left the generator. The generator ends after
/// both tournaments' rounds.
pub proof fn tournament_pair_is_two_tournaments(selection: TournamentSelection, scores: Seq<u64>, state: u64)
    ensures
        ({
            let size = selection.tournament_size as nat;
            let rounds = tournament_rounds(size);
            let after_first = lcg_skip(state, rounds);
            &&& selection.selected(scores, state).0 == tournament_winner(state, scores, size)
            &&& selection.selected(scores, state).1 == tournament_winner(after_first, scores, size)
            &&& selection.selected(scores, state).1 == selection.selected(scores, after_first).0
            &&& selection.selection_state(scores, state) == lcg_skip(after_first, rounds)
        }),
{
}

/// Whether a tournament's winner is unbeaten: no contestant of any round
/// scores greater than the winner.
pub open spec fn unbeaten_through(state: u64, scores: Seq<u64>, leader: nat, round: nat) -> bool {
    forall|r: nat| r <= round ==> !fitness_gt(
        scores[#[trigger] tournament_contestant(state, scores.len(), r) as int],
        scores[leader as int],
    )
}

/// The tournament winner is one of the contestants, and no contestant
/// scores greater than the winner.
pub proof fn tournament_winner_unbeaten(state: u64, scores: Seq<u64>, size: nat)
    requires
        0 < scores.len(),
    ensures
        exists|r: nat| r < tournament_rounds(size)
            && #[trigger] tournament_contestant(state, scores.len(), r) == tournament_winner(state, scores, size),
        forall|r: nat| r < tournament_rounds(size) ==> !fitness_gt(
            scores[#[trigger] tournament_contestant(state, scores.len(), r) as int],
            scores[tournament_winner(state, scores, size) as int],
        ),
{
    lemma_leader_unbeaten(state, scores, (tournament_rounds(size) - 1) as nat);
}

proof fn lemma_leader_unbeaten(state: u64, scores: Seq<u64>, round: nat)
    requires
        0 < scores.len(),
    ensures
        tournament_leader(state, scores, round) < scores.len(),
        exists|r: nat| r <= round
            && #[trigger] tournament_contestant(state, scores.len(), r) == tournament_leader(state, scores, round),
        unbeaten_through(state, scores, tournament_leader(state, scores, round), round),
    decreases round,
{
    let n = scores.len();
    let c = tournament_contestant(state, n, round);
    lemma_index_draw_in_range(lcg_skip(state, round), n);
    if round == 0 {
        assert(tournament_contestant(state, n, 0) == tournament_leader(state, scores, 0));
    } else {
        let prev = (round - 1) as nat;
        lemma_leader_unbeaten(state, scores, prev);
        let old_leader = tournament_leader(state, scores, prev);
        let leader = tournament_leader(state, scores, round);
        let w = choose|r: nat| r <= prev && #[trigger] tournament_contestant(state, n, r) == old_leader;
        if fitness_gt(scores[c as int], scores[old_leader as int]) {
            assert(leader == c);
            assert(tournament_contestant(state, n, round) == leader);
            assert forall|r: nat| r <= round implies !fitness_gt(
                scores[#[trigger] tournament_contestant(state, n, r) as int],
                scores[leader as int],
            ) by {
                if r < round {
                    assert(!fitness_gt(scores[tournament_contestant(state, n, r) as int], scores[old_leader as int]));
                }
            }
        } else {
            assert(leader == old_leader);
            assert(tournament_contestant(state, n, w) == leader);
            assert forall|r: nat| r <= round implies !fitness_gt(
                scores[#[trigger] tournament_contestant(state, n, r) as int],
                scores[leader as int],
            ) by {
                if r < round {
                    assert(!fitness_gt(scores[tournament_contestant(state, n, r) as int], scores[old_leader as int]));
                }
            }
        }
    }
}

} // verus!

verus! {

/// The ascending ordering keys of a population's scores.
pub open spec fn ascending_keys(scores: Seq<u64>) -> Seq<i64> {
    Seq::new(scores.len(), |i: int| order_key(scores[i]) as i64)
}

/// `ranks` gives each position its rank in `order`: the first position
/// listed has rank 1, the last has rank `n`.
pub open spec fn ranks_follow(order: Seq<usize>, ranks: Seq<u64>) -> bool {
    &&& ranks.len() == order.len()
    &&& forall|p: int| 0 <= p < order.len() ==> ranks[#[trigger] order[p] as int] == p + 1
}

/// The total of the ranks 1..=n, as the binary64 value `(n * (n + 1)) / 2`.
pub open spec fn rank_total(n: nat) -> nat {
    round53(n * (n + 1)) / 2
}

/// Walks the positions in order, taking each rank (in units of 2^-53) off
/// the threshold `x`, rounding each difference to 53 significant bits; the
/// first position that brings the threshold to zero or below is chosen,
/// and the last position when none does.
pub open spec fn rank_walk(x: nat, ranks: Seq<u64>, j: nat) -> nat
    decreases ranks.len() - j,
{
    if j >= ranks.len() {
        (ranks.len() - 1) as nat
    } else if x <= ranks[j as int] * two_53() {
        j
    } else {
        rank_walk(round53((x - ranks[j as int] * two_53()) as nat), ranks, j + 1)
    }
}

/// The position rank selection draws from generator state `state`: the
/// threshold is the unit fraction of the draw times the rank total.
pub open spec fn rank_draw(state: u64, ranks: Seq<u64>) -> nat {
    rank_walk(round53(unit_draw(state) * rank_total(ranks.len())), ranks, 0)
}

/// Rank-based selection: individuals are ranked 1..=n by ascending score
/// (ties by position), and each parent is drawn with probability
/// proportional to its rank.
#[derive(Clone)]
pub struct RankSelection;

proof fn lemma_rank_walk_in_range(x: nat, ranks: Seq<u64>, j: nat)
    requires
        ranks.len() > 0,
    ensures
        rank_walk(x, ranks, j) < ranks.len(),
    decreases ranks.len() - j,
{
    if j < ranks.len() && x > ranks[j as int] * two_53() {
        lemma_rank_walk_in_range(round53((x - ranks[j as int] * two_53()) as nat), ranks, j + 1);
    }
}

/// Draws one position by rank.
fn rank_pick(ranks: &Vec<u64>, total: u128, rng: &mut SimpleRng) -> (pick: usize)
    requires
        ranks@.len() > 0,
        total == rank_total(ranks@.len()),
        total <= 0x8000_0000_0000_0000,
        forall|i: int| 0 <= i < ranks@.len() ==> #[trigger] ranks@[i] <= ranks@.len(),
        ranks@.len() <= 0xFFFF_FFFF_FFFF_FFFF,
    ensures
        pick == rank_draw(old(rng).state(), ranks@),
        pick < ranks@.len(),
        final(rng).state() == lcg_next(old(rng).state()),
{
    let n = ranks.len();
    let ghost start = rng.state();
    let k = rng.next_fraction_bits();
    proof {
        crate::rounding::lemma_bounding_powers();
        assert((k as nat) * (total as nat) < 0x20_0000_0000_0000_0000_0000_0000_0000) by (nonlinear_arith)
            requires k < 0x20_0000_0000_0000, total <= 0x8000_0000_0000_0000;
        crate::rounding::lemma_round53_at_most_power((k as nat) * (total as nat), 117);
        lemma_rank_walk_in_range(round53(unit_draw(start) * rank_total(n as nat)), ranks@, 0);
    }
    let mut x = round53_exec(k as u128 * total);
    let ghost first_threshold = x as nat;
    assert(rank_draw(start, ranks@) == rank_walk(first_threshold, ranks@, 0));
    let mut j: usize = 0;
    while j < n
        invariant
            n == ranks@.len(),
            0 < n <= 0xFFFF_FFFF_FFFF_FFFF,
            forall|i: int| 0 <= i < ranks@.len() ==> #[trigger] ranks@[i] <= ranks@.len(),
            j <= n,
            x <= 0x20_0000_0000_0000_0000_0000_0000_0000,
            pow2(117) == 0x20_0000_0000_0000_0000_0000_0000_0000,
            rank_walk(x as nat, ranks@, j as nat) == rank_walk(first_threshold, ranks@, 0),
            rank_draw(start, ranks@) == rank_walk(first_threshold, ranks@, 0),
            start == old(rng).state(),
            rng.state() == lcg_next(start),
        decreases n - j,
    {
        let cut = ranks[j] as u128 * 0x20_0000_0000_0000;
        assert(cut == ranks@[j as int] * two_53());
        if x <= cut {
            assert(rank_walk(x as nat, ranks@, j as nat) == j);
            return j;
        }
        assert(rank_walk(x as nat, ranks@, j as nat)
            == rank_walk(round53((x - cut) as nat), ranks@, (j + 1) as nat));
        proof {
            crate::rounding::lemma_round53_at_most_power((x - cut) as nat, 117);
        }
        x = round53_exec(x - cut);
        j = j + 1;
    }
    n - 1
}

/// `ranks` follow the stable ascending order of `keys`.
pub open spec fn stable_ranks_of(keys: Seq<i64>, ranks: Seq<u64>) -> bool {
    exists|order: Seq<usize>| #![trigger is_stable_order(keys, order)]
        is_stable_order(keys, order) && ranks_follow(order, ranks)
}

/// The ranks of the stable ascending order of `keys`.
pub open spec fn stable_ranks(keys: Seq<i64>) -> Seq<u64> {
    choose|ranks: Seq<u64>| #[trigger] stable_ranks_of(keys, ranks)
}

/// Ranks are determined by the order they follow.
proof fn lemma_ranks_determined(keys: Seq<i64>, order: Seq<usize>, a: Seq<u64>, b: Seq<u64>)
    requires
        is_stable_order(keys, order),
        ranks_follow(order, a),
        ranks_follow(order, b),
    ensures
        a == b,
{
    crate::ranking::lemma_stable_order_is_permutation(keys, order);
    assert forall|i: int| 0 <= i < a.len() implies a[i] == b[i] by {
        assert(crate::ranking::lists(order, i));
        let p = choose|p: int| 0 <= p < order.len() && order[p] == i;
        assert(a[order[p] as int] == p + 1);
    }
    assert(a =~= b);
}

/// The ranks that rank selection gives a population's scores.
pub open spec fn score_ranks(scores: Seq<u64>) -> Seq<u64> {
    stable_ranks(ascending_keys(scores))
}

impl Selection for RankSelection {
    open spec fn described(&self) -> bool {
        true
    }

    open spec fn accepts(&self, scores: Seq<u64>) -> bool {
        population_fits(scores.len()) && comparable(scores)
    }

    open spec fn selected(&self, scores: Seq<u64>, state: u64) -> (nat, nat) {
        (rank_draw(state, score_ranks(scores)), rank_draw(lcg_next(state), score_ranks(scores)))
    }

    open spec fn selection_state(&self, scores: Seq<u64>, state: u64) -> u64 {
        lcg_next(lcg_next(state))
    }

    fn select<G>(&self, population: &[Individual<G>], rng: &mut SimpleRng) -> (parents: (usize, usize)) {
        let n = population.len();
        let ghost keys_spec = ascending_keys(scores(population@));
        let mut keys: Vec<i64> = Vec::new();
        for i in 0..n
            invariant
                n == population@.len(),
                keys_spec == ascending_keys(scores(population@)),
                keys@ == keys_spec.subrange(0, i as int),
        {
            keys.push(fitness_key(population[i].fitness));
        }
        assert(keys@ == keys_spec);
        let order = stable_order(&keys);
        assert(n * (n + 1) <= usize::MAX);
        let mut ranks: Vec<u64> = Vec::new();
        for i in 0..n
            invariant
                ranks@.len() == i,
                forall|q: int| 0 <= q < i ==> ranks@[q] == 0,
        {
            ranks.push(0);
        }
        for p in 0..n
            invariant
                n == population@.len(),
                population_fits(n as nat),
                keys_spec.len() == n,
                order@.len() == n,
                is_stable_order(keys_spec, order@),
                ranks@.len() == n,
                forall|q: int| 0 <= q < p ==> ranks@[#[trigger] order@[q] as int] == q + 1,
                forall|i: int| 0 <= i < n ==> #[trigger] ranks@[i] <= n,
        {
            proof {
                assert forall|q: int| 0 <= q < p implies order@[q] != order@[p as int] by {
                    assert(crate::ranking::precedes(keys_spec, order@[q] as int, order@[p as int] as int));
                }
            }
            let slot = order[p];
            ranks.set(slot, (p + 1) as u64);
        }
        assert(n + 1 <= usize::MAX && n * (n + 1) <= usize::MAX) by (nonlinear_arith)
            requires n * (n + 1) <= usize::MAX, n > 0;
        let total = round53_exec((n * (n + 1)) as u128) / 2;
        proof {
            crate::rounding::lemma_bounding_powers();
            crate::rounding::lemma_round53_at_most_power((n * (n + 1)) as nat, 64);
            assert(ranks_follow(order@, ranks@));
        }
        let first = rank_pick(&ranks, total, rng);
        let second = rank_pick(&ranks, total, rng);
        proof {
            let chosen = stable_ranks(keys_spec);
            assert(stable_ranks_of(keys_spec, ranks@));
            let o2 = choose|o: Seq<usize>| #![trigger is_stable_order(keys_spec, o)]
                is_stable_order(keys_spec, o) && ranks_follow(o, chosen);
            crate::ranking::stable_order_unique(keys_spec, o2, order@);
            lemma_ranks_determined(keys_spec, order@, chosen, ranks@);
        }
        (first, second)
    }
}

} // verus!
