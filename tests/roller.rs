use diceman::{
    evaluate, evaluate_with_rng, roll_with_rng, Compare, Condition, Error, Expr, FastRng,
    Modifier, Op, Rng, Roll, Sides,
};

/// A deterministic source that replays a list of values.
struct TestRng {
    values: Vec<u32>,
    index: usize,
}

impl TestRng {
    fn new(values: Vec<u32>) -> Self {
        Self { values, index: 0 }
    }
}

impl Rng for TestRng {
    fn roll(&mut self, _max: u32) -> u32 {
        let value = self.values[self.index % self.values.len()];
        self.index += 1;
        value
    }
}

/// A source that always rolls the highest face.
struct MaxRng;

impl Rng for MaxRng {
    fn roll(&mut self, max: u32) -> u32 {
        max
    }
}

#[test]
fn test_evaluate_number() {
    let expr = Expr::Number(42);
    let result = evaluate(&expr).unwrap();
    assert_eq!(result.total, 42);
}

#[test]
fn test_evaluate_basic_roll() {
    let roll = Roll {
        count: 2,
        sides: Sides::Number(6),
        modifiers: vec![],
    };
    let expr = Expr::Roll(roll);
    let mut rng = TestRng::new(vec![3, 4]);
    let result = evaluate_with_rng(&expr, &mut rng).unwrap();
    assert_eq!(result.total, 7);
}

#[test]
fn test_evaluate_keep_highest() {
    let roll = Roll {
        count: 4,
        sides: Sides::Number(6),
        modifiers: vec![Modifier::KeepHighest(3)],
    };
    let expr = Expr::Roll(roll);
    let mut rng = TestRng::new(vec![1, 5, 3, 6]);
    let result = evaluate_with_rng(&expr, &mut rng).unwrap();
    assert_eq!(result.total, 14);
}

#[test]
fn test_evaluate_expression() {
    let expr = Expr::BinOp {
        op: Op::Add,
        left: Box::new(Expr::Roll(Roll {
            count: 2,
            sides: Sides::Number(6),
            modifiers: vec![],
        })),
        right: Box::new(Expr::Number(5)),
    };
    let mut rng = TestRng::new(vec![3, 4]);
    let result = evaluate_with_rng(&expr, &mut rng).unwrap();
    assert_eq!(result.total, 12);
}

#[test]
fn test_evaluate_fudge() {
    let roll = Roll {
        count: 4,
        sides: Sides::Fudge,
        modifiers: vec![],
    };
    let expr = Expr::Roll(roll);
    let mut rng = TestRng::new(vec![1, 2, 3, 2]);
    let result = evaluate_with_rng(&expr, &mut rng).unwrap();
    assert_eq!(result.total, 0);
}

#[test]
fn test_evaluate_drop_lowest() {
    let roll = Roll {
        count: 4,
        sides: Sides::Number(6),
        modifiers: vec![Modifier::DropLowest(1)],
    };
    let expr = Expr::Roll(roll);
    let mut rng = TestRng::new(vec![1, 5, 3, 6]);
    let result = evaluate_with_rng(&expr, &mut rng).unwrap();
    assert_eq!(result.total, 14);
}

#[test]
fn test_evaluate_drop_highest() {
    let roll = Roll {
        count: 4,
        sides: Sides::Number(6),
        modifiers: vec![Modifier::DropHighest(1)],
    };
    let expr = Expr::Roll(roll);
    let mut rng = TestRng::new(vec![1, 5, 3, 6]);
    let result = evaluate_with_rng(&expr, &mut rng).unwrap();
    assert_eq!(result.total, 9);
}

#[test]
fn test_evaluate_count_successes() {
    let roll = Roll {
        count: 5,
        sides: Sides::Number(10),
        modifiers: vec![Modifier::CountSuccesses(Condition {
            compare: Compare::GreaterOrEqual,
            value: 8,
        })],
    };
    let expr = Expr::Roll(roll);
    let mut rng = TestRng::new(vec![10, 7, 8, 3, 9]);
    let result = evaluate_with_rng(&expr, &mut rng).unwrap();
    assert_eq!(result.total, 3);
}

#[test]
fn test_evaluate_count_successes_zero() {
    let roll = Roll {
        count: 3,
        sides: Sides::Number(6),
        modifiers: vec![Modifier::CountSuccesses(Condition {
            compare: Compare::Equal,
            value: 6,
        })],
    };
    let expr = Expr::Roll(roll);
    let mut rng = TestRng::new(vec![1, 2, 3]);
    let result = evaluate_with_rng(&expr, &mut rng).unwrap();
    assert_eq!(result.total, 0);
}

#[test]
fn test_evaluate_count_successes_output_format() {
    let roll = Roll {
        count: 4,
        sides: Sides::Number(10),
        modifiers: vec![Modifier::CountSuccesses(Condition {
            compare: Compare::GreaterOrEqual,
            value: 8,
        })],
    };
    let expr = Expr::Roll(roll);
    let mut rng = TestRng::new(vec![10, 5, 8, 3]);
    let result = evaluate_with_rng(&expr, &mut rng).unwrap();
    assert!(result.expression.contains("successes"));
    assert!(result.expression.contains("10*"));
    assert!(result.expression.contains("8*"));
}

#[test]
fn test_evaluate_penetrating_explode() {
    let roll = Roll {
        count: 1,
        sides: Sides::Number(6),
        modifiers: vec![Modifier::Explode {
            penetrating: true,
            condition: None,
        }],
    };
    let expr = Expr::Roll(roll);
    let mut rng = TestRng::new(vec![6, 6, 4]);
    let result = evaluate_with_rng(&expr, &mut rng).unwrap();
    assert_eq!(result.total, 14);
}

#[test]
fn test_evaluate_penetrating_explode_no_explosion() {
    let roll = Roll {
        count: 1,
        sides: Sides::Number(6),
        modifiers: vec![Modifier::Explode {
            penetrating: true,
            condition: None,
        }],
    };
    let expr = Expr::Roll(roll);
    let mut rng = TestRng::new(vec![4]);
    let result = evaluate_with_rng(&expr, &mut rng).unwrap();
    assert_eq!(result.total, 4);
}

#[test]
fn scenario_two_d6() {
    let mut rng = TestRng::new(vec![3, 4]);
    let result = roll_with_rng("2d6", &mut rng).unwrap();
    assert_eq!(result.total, 7);
    assert_eq!(result.expression, "2d6[3, 4] = 7");
    assert_eq!(result.dice.len(), 2);
    assert_eq!(result.dice[0].rolls, vec![3]);
}

#[test]
fn scenario_keep_highest_three() {
    let mut rng = TestRng::new(vec![1, 5, 3, 6]);
    let result = roll_with_rng("4d6kh3", &mut rng).unwrap();
    assert_eq!(result.total, 14);
    assert_eq!(result.expression, "4d6kh3[(1), 5, 3, 6] = 14");
    assert!(result.dice[0].dropped);
    assert!(!result.dice[1].dropped);
}

#[test]
fn scenario_penetrating_explode() {
    let mut rng = TestRng::new(vec![6, 6, 4]);
    let result = roll_with_rng("1d6!p", &mut rng).unwrap();
    assert_eq!(result.total, 14);
    assert_eq!(result.dice[0].rolls, vec![6, 6, 4]);
    assert_eq!(result.dice[0].value, 14);
}

#[test]
fn scenario_success_counting() {
    let mut rng = TestRng::new(vec![10, 7, 8, 3, 9]);
    let result = roll_with_rng("5d10>=8", &mut rng).unwrap();
    assert_eq!(result.total, 3);
    assert_eq!(result.expression, "5d10>=8[10*, 7, 8*, 3, 9*] = 3 successes");
}

#[test]
fn scenario_one_success_is_singular() {
    let mut rng = TestRng::new(vec![9, 2]);
    let result = roll_with_rng("2d10>8", &mut rng).unwrap();
    assert_eq!(result.expression, "2d10>8[9*, 2] = 1 success");
}

#[test]
fn scenario_division_by_zero() {
    let mut rng = TestRng::new(vec![3, 4]);
    let result = roll_with_rng("2d6 / 0", &mut rng);
    assert!(matches!(result, Err(Error::DivisionByZero)));
    let mut rng = TestRng::new(vec![3, 4]);
    let result = roll_with_rng("7 / (2d6 - 7)", &mut rng);
    assert!(matches!(result, Err(Error::DivisionByZero)));
}

#[test]
fn arithmetic_and_trace() {
    let mut rng = TestRng::new(vec![3, 4]);
    let result = roll_with_rng("2d6 + 5", &mut rng).unwrap();
    assert_eq!(result.total, 12);
    assert_eq!(result.expression, "2d6[3, 4] = 7 + 5 = 12");
    let mut rng = TestRng::new(vec![1]);
    let result = roll_with_rng("(1 + 2) * 3 - 7 / 2", &mut rng).unwrap();
    assert_eq!(result.total, 6);
    assert_eq!(result.expression, "(1 + 2 = 3) * 3 = 9 - 7 / 2 = 3 = 6");
    let result = roll_with_rng("-7 / 2", &mut rng).unwrap();
    assert_eq!(result.total, -3);
}

#[test]
fn modifiers_apply_in_fixed_order() {
    // Written keep-then-reroll, applied reroll-then-keep.
    let mut rng = TestRng::new(vec![1, 5, 3, 6, 2]);
    let result = roll_with_rng("4d6kh3r", &mut rng).unwrap();
    assert_eq!(result.dice[0].rolls, vec![1, 2]);
    assert_eq!(result.total, 14);
    assert_eq!(result.expression, "4d6kh3r[(2), 5, 3, 6] = 14");
}

#[test]
fn reroll_once_and_until() {
    let mut rng = TestRng::new(vec![1, 1, 1, 4]);
    let result = roll_with_rng("1d6r", &mut rng).unwrap();
    assert_eq!(result.dice[0].rolls, vec![1, 1, 1, 4]);
    assert_eq!(result.total, 4);
    let mut rng = TestRng::new(vec![1, 1, 4]);
    let result = roll_with_rng("1d6ro", &mut rng).unwrap();
    assert_eq!(result.dice[0].rolls, vec![1, 1]);
    assert_eq!(result.total, 1);
}

#[test]
fn explode_with_condition() {
    let mut rng = TestRng::new(vec![9, 8, 2]);
    let result = roll_with_rng("1d10!>=8", &mut rng).unwrap();
    assert_eq!(result.total, 19);
    assert_eq!(result.dice[0].rolls, vec![9, 8, 2]);
}

#[test]
fn fudge_dice_explode_on_plus_one() {
    let mut rng = TestRng::new(vec![3, 3, 2]);
    let result = roll_with_rng("1dF!", &mut rng).unwrap();
    assert_eq!(result.total, 2);
    assert_eq!(result.dice[0].rolls, vec![1, 1, 0]);
    let mut rng = TestRng::new(vec![3, 1]);
    let result = roll_with_rng("1dF!p", &mut rng).unwrap();
    assert_eq!(result.total, -1);
    assert_eq!(result.dice[0].rolls, vec![1, -1]);
    let mut rng = MaxRng;
    assert!(matches!(roll_with_rng("1dF!", &mut rng), Err(Error::ExplodeLimit(100))));
}

#[test]
fn roll_limits() {
    let mut rng = TestRng::new(vec![1]);
    assert!(matches!(roll_with_rng("1d6r", &mut rng), Err(Error::RerollLimit(100))));
    let mut rng = MaxRng;
    assert!(matches!(roll_with_rng("1d6!", &mut rng), Err(Error::ExplodeLimit(100))));
}

#[test]
fn totals_that_overflow_fail() {
    let mut rng = MaxRng;
    let result = roll_with_rng("4294967295 * 4294967295 * 4294967295", &mut rng);
    assert!(matches!(result, Err(Error::Overflow)));
}

#[test]
fn zero_sided_roll_is_refused() {
    let expr = Expr::Roll(Roll { count: 1, sides: Sides::Number(0), modifiers: vec![] });
    let mut rng = MaxRng;
    assert!(matches!(evaluate_with_rng(&expr, &mut rng), Err(Error::InvalidDiceSides(0))));
}

#[test]
fn percent_and_fudge_faces() {
    let mut rng = MaxRng;
    let result = roll_with_rng("d% + 3dF", &mut rng).unwrap();
    assert_eq!(result.total, 103);
    assert_eq!(result.expression, "1d%[100] = 100 + 3dF[1, 1, 1] = 3 = 103");
}

#[test]
fn seeded_generator_is_reproducible_and_advances() {
    let mut a = FastRng::with_seed(7);
    let mut b = FastRng::with_seed(7);
    let xs: Vec<u32> = (0..20).map(|_| a.roll(1000)).collect();
    let ys: Vec<u32> = (0..20).map(|_| b.roll(1000)).collect();
    assert_eq!(xs, ys);
    assert!(xs.iter().all(|&x| (1..=1000).contains(&x)));
    assert!(xs.iter().any(|&x| x != xs[0]));
}

#[test]
fn sides_count_and_compare_check() {
    assert_eq!(Sides::Number(20).count(), 20);
    assert_eq!(Sides::Percent.count(), 100);
    assert_eq!(Sides::Fudge.count(), 3);
    assert!(Compare::NotEqual.check(3, 4));
    assert!(Compare::LessOrEqual.check(4, 4));
    assert!(!Compare::GreaterThan.check(4, 4));
}
