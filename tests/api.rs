use diceman::{parse, roll, roll_with_rng, simulate, Expr, FastRng, Sides};

#[test]
fn test_roll_basic() {
    let result = roll("2d6").unwrap();
    assert!(result.total >= 2 && result.total <= 12);
}

#[test]
fn lib_test_roll_with_modifier() {
    let result = roll("4d6kh3").unwrap();
    assert!(result.total >= 3 && result.total <= 18);
}

#[test]
fn test_roll_expression() {
    let result = roll("2d6 + 5").unwrap();
    assert!(result.total >= 7 && result.total <= 17);
}

#[test]
fn test_roll_seeded() {
    let mut rng = FastRng::with_seed(42);
    let result1 = roll_with_rng("2d6", &mut rng).unwrap();

    let mut rng = FastRng::with_seed(42);
    let result2 = roll_with_rng("2d6", &mut rng).unwrap();

    assert_eq!(result1.total, result2.total);
}

#[test]
fn test_parse() {
    let expr = parse("4d6kh3").unwrap();
    match expr {
        Expr::Roll(roll) => {
            assert_eq!(roll.count, 4);
            assert_eq!(roll.sides, Sides::Number(6));
            assert_eq!(roll.modifiers.len(), 1);
        }
        _ => panic!("Expected a roll"),
    }
}

#[test]
fn test_simulate_integration() {
    let result = simulate("2d6", 1000).unwrap();
    assert!(result.min >= 2);
    assert!(result.max <= 12);
    let mean = result.sum as f64 / result.n as f64;
    assert!((mean - 7.0).abs() < 0.5);
}
