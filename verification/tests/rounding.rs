use genetic_search::ranking::stable_order;
use genetic_search::rounding::{round53_exec, scaled_index_exec};
use genetic_search::SimpleRng;

#[test]
fn round53_matches_binary64_conversion() {
    let mut rng = SimpleRng::new(2024);
    for _ in 0..20000 {
        let hi = rng.next_u64() as u128;
        let lo = rng.next_u64() as u128;
        let shift = (rng.next_u64() % 120) as u32;
        let v = ((hi << 64) | lo) >> (8 + shift);
        assert_eq!(round53_exec(v), (v as f64) as u128, "value {}", v);
    }
    // Ties go to the even significand.
    let t: u128 = (1 << 53) + 1;
    assert_eq!(round53_exec(t), 1 << 53);
    let t: u128 = (1 << 53) + 3;
    assert_eq!(round53_exec(t), (1 << 53) + 4);
    assert_eq!(round53_exec(12345), 12345);
}

#[test]
fn scaled_index_exact_values() {
    assert_eq!(scaled_index_exec(0, 10), 0);
    assert_eq!(scaled_index_exec((1 << 53) - 1, 10), 9);
    assert_eq!(scaled_index_exec(1 << 52, 10), 5);
    assert_eq!(scaled_index_exec(6004799503160661, 3), 2);
}

#[test]
fn stable_order_matches_stable_sort() {
    let mut rng = SimpleRng::new(77);
    for len in 0..60usize {
        let keys: Vec<i64> = (0..len).map(|_| (rng.next_u64() % 7) as i64 - 3).collect();
        let order = stable_order(&keys);
        let mut reference: Vec<usize> = (0..len).collect();
        reference.sort_by(|a, b| keys[*a].cmp(&keys[*b]));
        assert_eq!(order, reference);
    }
}
