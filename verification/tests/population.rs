use genetic_search::{
    Crossover, RankSelection, Selection, UniformCrossover,
    Individual, Mutation, Population, Probability, SimpleRng, SinglePointCrossover, TournamentSelection,
};

const UNIT: f64 = 9007199254740992.0;

fn gen_f64(rng: &mut SimpleRng) -> f64 {
    rng.next_fraction_bits() as f64 / UNIT
}

fn gen_range(rng: &mut SimpleRng, range: std::ops::Range<f64>) -> f64 {
    range.start + gen_f64(rng) * (range.end - range.start)
}

fn probability(p: f64) -> Probability {
    if !(p > 0.0) {
        Probability::new(0)
    } else if p >= 1.0 {
        Probability::new(1 << 53)
    } else {
        Probability::new((p * UNIT).ceil() as u64)
    }
}

fn random_population(pop_size: usize, gene_len: usize, min: f64, max: f64, rng: &mut SimpleRng) -> Population<f64> {
    let individuals = (0..pop_size)
        .map(|_| {
            let genes: Vec<f64> = (0..gene_len).map(|_| gen_range(rng, min..max)).collect();
            Individual { genes, fitness: 0.0f64.to_bits() }
        })
        .collect();
    Population { individuals, elitism_count: 0 }
}

struct PerturbationMutation {
    rate: f64,
    delta: f64,
}

impl Mutation<f64> for PerturbationMutation {
    fn mutate(&self, genes: &mut Vec<f64>, rng: &mut SimpleRng) {
        for gene in genes.iter_mut() {
            if rng.gen_bool(probability(self.rate)) {
                *gene += gen_range(rng, -self.delta..self.delta);
            }
        }
    }
}

fn score(ind: &Individual<f64>) -> f64 {
    f64::from_bits(ind.fitness)
}

fn scored(scores: &[f64]) -> Population<f64> {
    let individuals = scores
        .iter()
        .enumerate()
        .map(|(i, &s)| Individual { genes: vec![i as f64], fitness: s.to_bits() })
        .collect();
    Population { individuals, elitism_count: 0 }
}

#[test]
fn evaluate_sets_fitness() {
    let mut rng = SimpleRng::new(42);
    let mut pop = random_population(10, 3, 0.0, 10.0, &mut rng);
    pop.evaluate(&|genes: &Vec<f64>| genes.iter().sum::<f64>().to_bits());
    for ind in &pop.individuals {
        assert!(score(ind) > 0.0);
    }
}

#[test]
fn best_returns_fittest() {
    let mut rng = SimpleRng::new(42);
    let mut pop = random_population(10, 2, 0.0, 10.0, &mut rng);
    pop.evaluate(&|genes: &Vec<f64>| genes.iter().sum::<f64>().to_bits());
    let best = pop.best();
    for ind in &pop.individuals {
        assert!(score(best) >= score(ind));
    }
}

#[test]
fn evolve_preserves_size() {
    let mut rng = SimpleRng::new(42);
    let mut pop = random_population(20, 5, -5.0, 5.0, &mut rng);
    pop.elitism_count = 2;
    pop.evaluate(&|genes: &Vec<f64>| (-genes.iter().map(|g| g * g).sum::<f64>()).to_bits());

    let sel = TournamentSelection::new(3);
    let cx = SinglePointCrossover;
    let mut_rate = PerturbationMutation { rate: 0.1, delta: 0.5 };

    let next = pop.evolve(&sel, &cx, &mut_rate, probability(0.8), &mut rng);
    assert_eq!(next.individuals.len(), 20);
}

#[test]
fn elitism_preserves_best() {
    let mut rng = SimpleRng::new(42);
    let mut pop = random_population(10, 3, 0.0, 10.0, &mut rng);
    pop.elitism_count = 2;
    pop.evaluate(&|genes: &Vec<f64>| genes.iter().sum::<f64>().to_bits());
    let _best_fitness = score(pop.best());

    let sel = TournamentSelection::new(3);
    let cx = SinglePointCrossover;
    let mt = PerturbationMutation { rate: 0.0, delta: 0.0 };

    let next = pop.evolve(&sel, &cx, &mt, probability(0.0), &mut rng);
    assert_eq!(next.individuals.len(), 10);
}

#[test]
fn elites_open_the_next_generation() {
    let mut rng = SimpleRng::new(42);
    let mut pop = random_population(10, 3, 0.0, 10.0, &mut rng);
    pop.elitism_count = 2;
    pop.evaluate(&|genes: &Vec<f64>| genes.iter().sum::<f64>().to_bits());
    let best_score = score(pop.best());
    let mut sorted: Vec<f64> = pop.individuals.iter().map(score).collect();
    sorted.sort_by(|a, b| b.partial_cmp(a).unwrap());

    let mt = PerturbationMutation { rate: 0.5, delta: 1.0 };
    let next = pop.evolve(&TournamentSelection::new(3), &SinglePointCrossover, &mt, probability(0.8), &mut rng);
    assert_eq!(next.elitism_count, 2);
    assert_eq!(score(&next.individuals[0]), best_score);
    assert_eq!(score(&next.individuals[0]), sorted[0]);
    assert_eq!(score(&next.individuals[1]), sorted[1]);
    for ind in &next.individuals[2..] {
        assert_eq!(ind.fitness, 0);
    }
}

#[test]
fn elitism_larger_than_population_copies_everything_sorted() {
    let mut pop = scored(&[1.0, 3.0, 2.0]);
    pop.elitism_count = 7;
    let mut rng = SimpleRng::new(3);
    let mt = PerturbationMutation { rate: 1.0, delta: 1.0 };
    let next = pop.evolve(&TournamentSelection::new(2), &SinglePointCrossover, &mt, probability(1.0), &mut rng);
    let scores: Vec<f64> = next.individuals.iter().map(score).collect();
    assert_eq!(scores, vec![3.0, 2.0, 1.0]);
    assert_eq!(next.individuals[0].genes, vec![1.0]);
}

#[test]
fn best_picks_last_of_equals() {
    let pop = scored(&[1.0, 4.0, -2.0, 4.0, 3.0]);
    let best = pop.best();
    assert_eq!(best.genes, vec![3.0]);
}

#[test]
fn best_treats_zeros_as_equal() {
    let pop = scored(&[0.0, -0.0]);
    assert_eq!(pop.best().genes, vec![1.0]);
}

#[test]
fn sort_by_fitness_is_stable_descending() {
    let scores = [1.0, 4.0, -2.0, 4.0, 0.0, -0.0, f64::INFINITY];
    let mut pop = scored(&scores);
    pop.sort_by_fitness();
    let genes: Vec<f64> = pop.individuals.iter().map(|i| i.genes[0]).collect();
    assert_eq!(genes, vec![6.0, 1.0, 3.0, 0.0, 4.0, 5.0, 2.0]);
    let mut reference: Vec<usize> = (0..scores.len()).collect();
    reference.sort_by(|a, b| scores[*b].partial_cmp(&scores[*a]).unwrap());
    let reference: Vec<f64> = reference.iter().map(|&i| i as f64).collect();
    assert_eq!(genes, reference);
}

#[test]
fn sort_single_nan_is_untouched() {
    let mut pop = scored(&[f64::NAN]);
    pop.sort_by_fitness();
    assert_eq!(pop.individuals.len(), 1);
    assert!(score(&pop.individuals[0]).is_nan());
}

#[test]
fn evaluate_keeps_genes() {
    let mut pop = scored(&[0.0, 0.0, 0.0]);
    pop.elitism_count = 4;
    pop.evaluate(&|genes: &Vec<f64>| (genes[0] * 2.0).to_bits());
    let scores: Vec<f64> = pop.individuals.iter().map(score).collect();
    assert_eq!(scores, vec![0.0, 2.0, 4.0]);
    assert_eq!(pop.individuals[2].genes, vec![2.0]);
    assert_eq!(pop.elitism_count, 4);
}

fn with_genes(entries: &[(Vec<f64>, f64)]) -> Population<f64> {
    let individuals = entries
        .iter()
        .map(|(genes, s)| Individual { genes: genes.clone(), fitness: s.to_bits() })
        .collect();
    Population { individuals, elitism_count: 0 }
}

#[test]
fn evolve_single_offspring_copies_parent_genes() {
    let mut pop = with_genes(&[(vec![7.0], 1.0), (vec![7.0], 3.0), (vec![7.0], 2.0)]);
    pop.elitism_count = 2;
    let mt = PerturbationMutation { rate: 0.0, delta: 0.0 };
    let mut rng = SimpleRng::new(1);
    let next = pop.evolve(&TournamentSelection::new(1), &SinglePointCrossover, &mt, probability(0.0), &mut rng);
    assert_eq!(next.elitism_count, 2);
    let pairs: Vec<(Vec<f64>, f64)> = next.individuals.iter().map(|i| (i.genes.clone(), score(i))).collect();
    assert_eq!(pairs, vec![(vec![7.0], 3.0), (vec![7.0], 2.0), (vec![7.0], 0.0)]);
}

#[test]
fn evolve_mixed_lengths_without_crossover() {
    let mut pop = with_genes(&[(vec![1.0], 1.0), (vec![2.0, 2.0], 5.0), (vec![3.0, 3.0, 3.0], 2.0)]);
    pop.elitism_count = 1;
    let mt = PerturbationMutation { rate: 0.0, delta: 0.0 };
    let mut rng = SimpleRng::new(9);
    let next = pop.evolve(&TournamentSelection::new(2), &SinglePointCrossover, &mt, probability(0.0), &mut rng);
    assert_eq!(next.individuals.len(), 3);
    assert_eq!(next.individuals[0].genes, vec![2.0, 2.0]);
    for ind in &next.individuals[1..] {
        assert_eq!(ind.fitness, 0);
        assert!(pop.individuals.iter().any(|p| p.genes == ind.genes));
    }
}

#[test]
fn evolve_full_elitism_draws_nothing() {
    let mut pop = scored(&[1.0, 3.0, 2.0]);
    pop.elitism_count = 3;
    let mut rng = SimpleRng::new(5);
    let mut untouched = SimpleRng::new(5);
    let mt = PerturbationMutation { rate: 1.0, delta: 1.0 };
    let _ = pop.evolve(&TournamentSelection::new(2), &SinglePointCrossover, &mt, probability(1.0), &mut rng);
    assert_eq!(rng.next_u64(), untouched.next_u64());
}

#[test]
fn evolve_offspring_follow_the_draws() {
    // Tournament of one, single-point crossover always, identity mutation:
    // the offspring are the crossovers of the drawn parents.
    let pop = with_genes(&[(vec![1.0, 2.0, 3.0], 1.0), (vec![4.0, 5.0, 6.0], 2.0)]);
    let mut rng = SimpleRng::new(11);
    let mut probe = SimpleRng::new(11);
    let mt = PerturbationMutation { rate: 0.0, delta: 0.0 };
    let next = pop.evolve(&TournamentSelection::new(1), &SinglePointCrossover, &mt, probability(1.0), &mut rng);
    let a = probe.gen_range_usize(0..2);
    let b = probe.gen_range_usize(0..2);
    let _ = probe.next_u64();
    let point = probe.gen_range_usize(1..3);
    let p1 = &pop.individuals[a].genes;
    let p2 = &pop.individuals[b].genes;
    let mut c1 = p1[..point].to_vec();
    c1.extend_from_slice(&p2[point..]);
    let mut c2 = p2[..point].to_vec();
    c2.extend_from_slice(&p1[point..]);
    assert_eq!(next.individuals[0].genes, c1);
    assert_eq!(next.individuals[1].genes, c2);
}

fn neg_square(genes: &Vec<f64>) -> u64 {
    (-genes.iter().map(|g| g * g).sum::<f64>()).to_bits()
}

#[test]
fn run_without_generations_returns_best_of_start() {
    let pop = with_genes(&[(vec![3.0], 0.0), (vec![-1.0], 0.0), (vec![1.0], 0.0), (vec![2.0], 0.0)]);
    let mut rng = SimpleRng::new(8);
    let mut untouched = SimpleRng::new(8);
    let best = pop.run(&mut rng, &neg_square, &TournamentSelection::new(2), &SinglePointCrossover,
        &PerturbationMutation { rate: 0.5, delta: 1.0 }, probability(0.9), 0);
    assert_eq!(best.genes, vec![1.0]);
    assert_eq!(score(&best), -1.0);
    assert_eq!(rng.next_u64(), untouched.next_u64());
}

#[test]
fn run_with_elitism_never_loses_the_best() {
    let mut rng = SimpleRng::new(42);
    let mut pop = random_population(20, 3, -5.0, 5.0, &mut rng);
    pop.elitism_count = 1;
    let start_best = pop.individuals.iter().map(|i| f64::from_bits(neg_square(&i.genes))).fold(f64::NEG_INFINITY, f64::max);
    let best = pop.run(&mut rng, &neg_square, &TournamentSelection::new(3), &UniformCrossover { swap_prob: probability(0.5) },
        &PerturbationMutation { rate: 0.3, delta: 0.5 }, probability(0.8), 30);
    assert!(score(&best) >= start_best);
    assert_eq!(best.genes.len(), 3);
    assert_eq!(best.fitness, neg_square(&best.genes));
}

#[test]
fn run_with_rank_selection() {
    let mut rng = SimpleRng::new(7);
    let mut pop = random_population(12, 2, -3.0, 3.0, &mut rng);
    pop.elitism_count = 2;
    let best = pop.run(&mut rng, &neg_square, &RankSelection, &SinglePointCrossover,
        &PerturbationMutation { rate: 0.2, delta: 0.3 }, probability(0.7), 20);
    assert_eq!(best.fitness, neg_square(&best.genes));
    assert!(score(&best) <= 0.0);
}

struct GaussianMutation {
    rate: f64,
    sigma: f64,
}

impl Mutation<f64> for GaussianMutation {
    fn mutate(&self, genes: &mut Vec<f64>, rng: &mut SimpleRng) {
        for gene in genes.iter_mut() {
            if rng.gen_bool(probability(self.rate)) {
                let u1 = gen_f64(rng).max(1e-10);
                let u2 = gen_f64(rng);
                let normal = (-2.0 * u1.ln()).sqrt() * (2.0 * std::f64::consts::PI * u2).cos();
                *gene += self.sigma * normal;
            }
        }
    }
}

struct UniformMutation {
    rate: f64,
    min: f64,
    max: f64,
}

impl Mutation<f64> for UniformMutation {
    fn mutate(&self, genes: &mut Vec<f64>, rng: &mut SimpleRng) {
        for gene in genes.iter_mut() {
            if rng.gen_bool(probability(self.rate)) {
                *gene = gen_range(rng, self.min..self.max);
            }
        }
    }
}

struct BlendCrossover {
    alpha: f64,
}

impl Crossover<f64> for BlendCrossover {
    fn crossover(&self, parent1: &[f64], parent2: &[f64], rng: &mut SimpleRng) -> (Vec<f64>, Vec<f64>) {
        assert_eq!(parent1.len(), parent2.len());
        let blend = |p1: f64, p2: f64, rng: &mut SimpleRng| -> f64 {
            let (lo, hi) = if p1 < p2 { (p1, p2) } else { (p2, p1) };
            let range = hi - lo;
            gen_range(rng, (lo - self.alpha * range)..(hi + self.alpha * range))
        };
        let n = parent1.len();
        let child1: Vec<f64> = (0..n).map(|i| blend(parent1[i], parent2[i], rng)).collect();
        let child2: Vec<f64> = (0..n).map(|i| blend(parent1[i], parent2[i], rng)).collect();
        (child1, child2)
    }
}

/// A run from a random population of `pop_size` individuals of `gene_len`
/// genes in `min..max`, keeping two elites.
#[allow(clippy::too_many_arguments)]
fn ga_run<S: Selection, C: Crossover<f64>, M: Mutation<f64>>(
    pop_size: usize,
    gene_len: usize,
    min: f64,
    max: f64,
    rng: &mut SimpleRng,
    fitness_fn: impl Fn(&[f64]) -> f64,
    selection: &S,
    crossover: &C,
    mutation: &M,
    crossover_rate: f64,
    max_generations: usize,
) -> Individual<f64> {
    let mut pop = random_population(pop_size, gene_len, min, max, rng);
    pop.elitism_count = 2;
    let scored = |genes: &Vec<f64>| fitness_fn(genes).to_bits();
    pop.run(rng, &scored, selection, crossover, mutation, probability(crossover_rate), max_generations)
}

#[test]
fn ga_finds_reasonable_solution() {
    let mut rng = SimpleRng::new(42);
    let result = ga_run(
        50, 3, -5.0, 5.0,
        &mut rng,
        |genes| -genes.iter().map(|g| g * g).sum::<f64>(),
        &TournamentSelection::new(3),
        &SinglePointCrossover,
        &GaussianMutation { rate: 0.3, sigma: 0.5 },
        0.8,
        200,
    );
    assert!(score(&result) > -5.0, "should find near-zero solution, got {}", score(&result));
}

#[test]
fn ga_with_uniform_crossover() {
    let mut rng = SimpleRng::new(42);
    let result = ga_run(
        30, 2, -5.0, 5.0,
        &mut rng,
        |genes| -(genes[0] - 3.0).powi(2),
        &TournamentSelection::new(2),
        &UniformCrossover { swap_prob: probability(0.5) },
        &PerturbationMutation { rate: 0.2, delta: 0.5 },
        0.9,
        100,
    );
    assert!(score(&result) > -5.0);
}

#[test]
fn ga_with_blend_crossover() {
    let mut rng = SimpleRng::new(42);
    let result = ga_run(
        30, 2, -5.0, 5.0,
        &mut rng,
        |genes| -(genes[0] + genes[1]),
        &TournamentSelection::new(3),
        &BlendCrossover { alpha: 0.5 },
        &UniformMutation { rate: 0.1, min: -5.0, max: 0.0 },
        0.8,
        100,
    );
    assert!(score(&result) > -10.0);
}

#[test]
fn evolve_mixed_lengths_copies_unequal_parents() {
    let mut pop = with_genes(&[(vec![1.0], 1.0), (vec![2.0, 2.0], 5.0)]);
    pop.elitism_count = 0;
    let mt = PerturbationMutation { rate: 0.0, delta: 0.0 };
    let mut rng = SimpleRng::new(4);
    let next = pop.evolve(&TournamentSelection::new(1), &SinglePointCrossover, &mt, probability(1.0), &mut rng);
    assert_eq!(next.individuals.len(), 2);
    for ind in &next.individuals {
        assert_eq!(ind.fitness, 0);
        assert!(pop.individuals.iter().any(|p| p.genes == ind.genes));
    }
}

#[test]
fn run_follows_the_generations() {
    // One generation with full elitism: the run returns the best of the
    // re-scored start, and each generation is bred and scored in turn.
    let start = with_genes(&[(vec![0.5], 0.0), (vec![2.0], 0.0), (vec![-1.0], 0.0)]);
    let mut copy = with_genes(&[(vec![0.5], 0.0), (vec![2.0], 0.0), (vec![-1.0], 0.0)]);
    let mut rng = SimpleRng::new(21);
    let mut expected_rng = SimpleRng::new(21);
    let mt = PerturbationMutation { rate: 0.4, delta: 0.5 };
    let sel = TournamentSelection::new(2);
    copy.elitism_count = 1;
    copy.evaluate(&neg_square);
    for _ in 0..3 {
        copy = copy.evolve(&sel, &SinglePointCrossover, &mt, probability(0.6), &mut expected_rng);
        copy.evaluate(&neg_square);
    }
    let mut start = start;
    start.elitism_count = 1;
    let best = start.run(&mut rng, &neg_square, &sel, &SinglePointCrossover, &mt, probability(0.6), 3);
    let expected = copy.best();
    assert_eq!(best.genes, expected.genes);
    assert_eq!(best.fitness, expected.fitness);
    assert_eq!(rng.next_u64(), expected_rng.next_u64());
}
