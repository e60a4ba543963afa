use genetic_search::{Crossover, Probability, SimpleRng, SinglePointCrossover, UniformCrossover};

#[test]
fn single_point_produces_correct_length() {
    let mut rng = SimpleRng::new(42);
    let cx = SinglePointCrossover;
    let (c1, c2) = cx.crossover(&[1.0, 2.0, 3.0, 4.0], &[5.0, 6.0, 7.0, 8.0], &mut rng);
    assert_eq!(c1.len(), 4);
    assert_eq!(c2.len(), 4);
}

#[test]
fn single_point_crosses_genes() {
    let mut rng = SimpleRng::new(42);
    let cx = SinglePointCrossover;
    let (c1, c2) = cx.crossover(&[1.0, 1.0, 1.0], &[2.0, 2.0, 2.0], &mut rng);
    // Both children should have mix of 1s and 2s
    let all_ones = c1.iter().all(|&g| g == 1.0);
    let all_twos = c1.iter().all(|&g| g == 2.0);
    assert!(!all_ones || !all_twos || c1 != c2);
}

#[test]
fn uniform_produces_correct_length() {
    let mut rng = SimpleRng::new(42);
    let cx = UniformCrossover { swap_prob: Probability::new(1 << 52) };
    let (c1, c2) = cx.crossover(&[1.0, 2.0], &[3.0, 4.0], &mut rng);
    assert_eq!(c1.len(), 2);
    assert_eq!(c2.len(), 2);
}

#[test]
fn single_point_single_gene() {
    let mut rng = SimpleRng::new(42);
    let cx = SinglePointCrossover;
    let (c1, c2) = cx.crossover(&[1.0], &[2.0], &mut rng);
    assert_eq!(c1, vec![1.0]);
    assert_eq!(c2, vec![2.0]);
}

#[test]
fn single_point_cuts_at_the_drawn_point() {
    // The cut point is 1 + the index drawn in a range of width n - 1.
    let mut probe = SimpleRng::new(42);
    let point = probe.gen_range_usize(1..5);
    let mut rng = SimpleRng::new(42);
    let (c1, c2) = SinglePointCrossover.crossover(&[1, 2, 3, 4, 5], &[6, 7, 8, 9, 10], &mut rng);
    let p1 = [1, 2, 3, 4, 5];
    let p2 = [6, 7, 8, 9, 10];
    for i in 0..5 {
        if i < point {
            assert_eq!((c1[i], c2[i]), (p1[i], p2[i]));
        } else {
            assert_eq!((c1[i], c2[i]), (p2[i], p1[i]));
        }
    }
    assert!(1 <= point && point < 5);
    assert_eq!(rng.next_u64(), probe.next_u64());
}

#[test]
fn single_point_empty_parents() {
    let mut rng = SimpleRng::new(42);
    let (c1, c2): (Vec<u8>, Vec<u8>) = SinglePointCrossover.crossover(&[], &[], &mut rng);
    assert!(c1.is_empty() && c2.is_empty());
    assert_eq!(rng.next_u64(), SimpleRng::new(42).next_u64());
}

#[test]
fn uniform_certain_swap_exchanges_all() {
    let mut rng = SimpleRng::new(1);
    let cx = UniformCrossover { swap_prob: Probability::new(1 << 53) };
    let (c1, c2) = cx.crossover(&[1, 2, 3], &[4, 5, 6], &mut rng);
    assert_eq!(c1, vec![4, 5, 6]);
    assert_eq!(c2, vec![1, 2, 3]);
}

#[test]
fn uniform_never_swap_copies() {
    let mut rng = SimpleRng::new(1);
    let cx = UniformCrossover { swap_prob: Probability::new(0) };
    let (c1, c2) = cx.crossover(&[1, 2, 3], &[4, 5, 6], &mut rng);
    assert_eq!(c1, vec![1, 2, 3]);
    assert_eq!(c2, vec![4, 5, 6]);
}

#[test]
fn uniform_swaps_follow_the_draws() {
    let p = Probability::new(1 << 52);
    let mut probe = SimpleRng::new(99);
    let swaps: Vec<bool> = (0..8).map(|_| probe.gen_bool(p)).collect();
    let mut rng = SimpleRng::new(99);
    let (c1, c2) = UniformCrossover { swap_prob: p }.crossover(&[0, 1, 2, 3, 4, 5, 6, 7], &[10, 11, 12, 13, 14, 15, 16, 17], &mut rng);
    for i in 0..8 {
        if swaps[i] {
            assert_eq!((c1[i], c2[i]), (10 + i, i));
        } else {
            assert_eq!((c1[i], c2[i]), (i, 10 + i));
        }
    }
}
