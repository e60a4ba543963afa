use genetic_search::{Individual, RankSelection, Selection, SimpleRng, TournamentSelection};

fn make_pop() -> Vec<Individual<f64>> {
    (0..10).map(|i| Individual { genes: vec![i as f64], fitness: (i as f64 + 1.0).to_bits() }).collect()
}

#[test]
fn tournament_selects_from_population() {
    let mut rng = SimpleRng::new(42);
    let pop = make_pop();
    let sel = TournamentSelection::new(3);
    let (a, b) = sel.select(&pop, &mut rng);
    assert!(a < 10 && b < 10);
}

#[test]
fn rank_selects_from_population() {
    let mut rng = SimpleRng::new(42);
    let pop = make_pop();
    let (a, b) = RankSelection.select(&pop, &mut rng);
    assert!(a < 10 && b < 10);
}

#[test]
fn tournament_favors_fitter() {
    let mut rng = SimpleRng::new(42);
    let pop = make_pop();
    let sel = TournamentSelection::new(5);
    let mut high_count = 0;
    for _ in 0..100 {
        let (a, _) = sel.select(&pop, &mut rng);
        if f64::from_bits(pop[a].fitness) > 5.0 { high_count += 1; }
    }
    assert!(high_count > 30, "tournament should favor fitter, got {} high picks", high_count);
}

#[test]
fn tournament_winner_is_unbeaten_contestant() {
    let scores = [3.0, -1.0, 7.5, 7.5, 0.0, 2.0];
    let pop: Vec<Individual<u8>> = scores.iter().map(|&s: &f64| Individual { genes: vec![], fitness: s.to_bits() }).collect();
    for seed in 1..50u64 {
        let mut probe = SimpleRng::new(seed);
        let contestants: Vec<usize> = (0..4).map(|_| probe.gen_range_usize(0..6)).collect();
        let mut rng = SimpleRng::new(seed);
        let (winner, _) = TournamentSelection::new(4).select(&pop, &mut rng);
        assert!(contestants.contains(&winner));
        for &c in &contestants {
            assert!(!(scores[c] > scores[winner]));
        }
        // The first among equally best contestants wins.
        let first_best = *contestants.iter().find(|&&c| scores[c] == scores[winner]).unwrap();
        assert_eq!(first_best, winner);
    }
}

#[test]
fn tournament_of_size_zero_draws_one_contestant() {
    let pop: Vec<Individual<u8>> = (0..5).map(|i| Individual { genes: vec![], fitness: (i as f64).to_bits() }).collect();
    let mut probe = SimpleRng::new(11);
    let a = probe.gen_range_usize(0..5);
    let b = probe.gen_range_usize(0..5);
    let mut rng = SimpleRng::new(11);
    assert_eq!(TournamentSelection { tournament_size: 0 }.select(&pop, &mut rng), (a, b));
}

#[test]
fn rank_single_individual_is_always_chosen() {
    let pop = vec![Individual { genes: vec![1u8], fitness: f64::NAN.to_bits() }];
    let mut rng = SimpleRng::new(8);
    assert_eq!(RankSelection.select(&pop, &mut rng), (0, 0));
}

#[test]
fn rank_favors_higher_ranks() {
    let pop = make_pop();
    let mut rng = SimpleRng::new(42);
    let mut top_half = 0;
    for _ in 0..1000 {
        let (a, b) = RankSelection.select(&pop, &mut rng);
        if a >= 5 { top_half += 1; }
        if b >= 5 { top_half += 1; }
    }
    // Ranks 6..=10 carry 40 of the 55 rank units.
    assert!(top_half > 1200, "got {}", top_half);
}

#[test]
fn tournament_of_one_on_empty_population_gives_zeros() {
    let mut rng = SimpleRng::new(6);
    let mut probe = SimpleRng::new(6);
    let empty: Vec<Individual<f64>> = Vec::new();
    let parents = TournamentSelection::new(1).select(&empty, &mut rng);
    assert_eq!(parents, (0, 0));
    probe.next_u64();
    probe.next_u64();
    assert_eq!(rng.next_u64(), probe.next_u64());
}
