use diceman::{simulate, simulate_seeded, SimResult};

fn mean(r: &SimResult) -> f64 {
    r.sum as f64 / r.n as f64
}

fn std_dev(r: &SimResult) -> f64 {
    let m = mean(r);
    let variance = r.sum_sq as f64 / r.n as f64 - m * m;
    variance.max(0.0).sqrt()
}

fn median(r: &SimResult) -> f64 {
    let (lo, hi) = r.median_pair();
    (lo as f64 + hi as f64) / 2.0
}

#[test]
fn test_simulate_basic() {
    let result = simulate("1d6", 1000).unwrap();

    assert!(result.min >= 1);
    assert!(result.max <= 6);
    assert_eq!(result.n, 1000);

    assert!((mean(&result) - 3.5).abs() < 0.5);
}

#[test]
fn test_simulate_constant() {
    let result = simulate("5", 100).unwrap();

    assert_eq!(result.min, 5);
    assert_eq!(result.max, 5);
    assert_eq!(mean(&result), 5.0);
    assert_eq!(std_dev(&result), 0.0);
    assert_eq!(result.distribution.len(), 1);
    assert_eq!(result.distribution[&5], 100);
}

#[test]
fn test_simulate_seeded_reproducible() {
    let result1 = simulate_seeded("2d6", 1000, 42).unwrap();
    let result2 = simulate_seeded("2d6", 1000, 42).unwrap();

    assert_eq!(result1.distribution, result2.distribution);
    assert_eq!(mean(&result1), mean(&result2));
}

#[test]
fn test_simulate_2d6_range() {
    let result = simulate("2d6", 10000).unwrap();

    assert!(result.min >= 2);
    assert!(result.max <= 12);

    assert!((mean(&result) - 7.0).abs() < 0.3);
}

#[test]
fn test_sorted_outcomes() {
    let result = simulate_seeded("1d6", 600, 123).unwrap();
    let sorted = result.sorted_outcomes();

    for i in 1..sorted.len() {
        assert!(sorted[i - 1].0 < sorted[i].0);
    }
}

#[test]
fn test_probabilities() {
    let result = simulate("5", 100).unwrap();
    let probability = result.distribution[&5] as f64 / result.n as f64;

    assert_eq!(probability, 1.0);
}

#[test]
fn test_mode() {
    let result = simulate("5", 100).unwrap();
    assert_eq!(result.mode(), Some(5));
}

#[test]
fn test_median() {
    let result = simulate("5", 100).unwrap();
    assert_eq!(median(&result), 5.0);
}

#[test]
fn simulation_counts_add_up_within_extremes() {
    let result = simulate_seeded("3d6 + 1d4", 500, 9).unwrap();
    let total: usize = result.distribution.values().sum();
    assert_eq!(total, result.n);
    for (&k, _) in result.distribution.iter() {
        assert!(result.min <= k && k <= result.max);
    }
    let sorted = result.sorted_outcomes();
    assert_eq!(sorted.len(), result.distribution.len());
    assert_eq!(sorted.first().unwrap().0, result.min);
    assert_eq!(sorted.last().unwrap().0, result.max);
}

#[test]
fn seeded_simulations_agree_in_all_statistics() {
    let a = simulate_seeded("4d6kh3", 300, 2024).unwrap();
    let b = simulate_seeded("4d6kh3", 300, 2024).unwrap();
    assert_eq!(a.distribution, b.distribution);
    assert_eq!((a.min, a.max, a.sum, a.sum_sq, a.n), (b.min, b.max, b.sum, b.sum_sq, b.n));
    assert_eq!(std_dev(&a), std_dev(&b));
}

#[test]
fn simulation_errors_surface() {
    assert!(simulate("1d6 / 0", 10).is_err());
    assert!(simulate("2d", 10).is_err());
}

#[test]
fn mode_and_median_of_a_two_valued_roll() {
    let result = simulate_seeded("1d2", 1001, 5).unwrap();
    let ones = *result.distribution.get(&1).unwrap_or(&0);
    let twos = *result.distribution.get(&2).unwrap_or(&0);
    let expected_mode = if twos > ones { 2 } else { 1 };
    assert_eq!(result.mode(), Some(expected_mode));
    let expected_median = if ones > 500 { 1.0 } else { 2.0 };
    assert_eq!(median(&result), expected_median);
}
