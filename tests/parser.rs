use diceman::parser::{parse, Parser};
use diceman::{Compare, Condition, Error, Expr, Modifier, Op, Roll, Sides};

fn roll_of(count: u32, sides: Sides, modifiers: Vec<Modifier>) -> Expr {
    Expr::Roll(Roll { count, sides, modifiers })
}

#[test]
fn test_parse_number() {
    let expr = parse("42").unwrap();
    assert_eq!(expr, Expr::Number(42));
}

#[test]
fn test_parse_basic_roll() {
    let expr = parse("2d6").unwrap();
    assert_eq!(
        expr,
        Expr::Roll(Roll {
            count: 2,
            sides: Sides::Number(6),
            modifiers: vec![],
        })
    );
}

#[test]
fn test_parse_roll_with_modifier() {
    let expr = parse("4d6kh3").unwrap();
    assert_eq!(
        expr,
        Expr::Roll(Roll {
            count: 4,
            sides: Sides::Number(6),
            modifiers: vec![Modifier::KeepHighest(3)],
        })
    );
}

#[test]
fn test_parse_expression() {
    let expr = parse("2d6 + 5").unwrap();
    match expr {
        Expr::BinOp { op, left, right } => {
            assert_eq!(op, Op::Add);
            assert!(matches!(*left, Expr::Roll(_)));
            assert_eq!(*right, Expr::Number(5));
        }
        _ => panic!("Expected BinOp"),
    }
}

#[test]
fn test_parse_explode() {
    let expr = parse("1d6!").unwrap();
    assert_eq!(
        expr,
        Expr::Roll(Roll {
            count: 1,
            sides: Sides::Number(6),
            modifiers: vec![Modifier::Explode {
                penetrating: false,
                condition: None,
            }],
        })
    );
}

#[test]
fn test_parse_explode_condition() {
    let expr = parse("1d6!>4").unwrap();
    assert_eq!(
        expr,
        Expr::Roll(Roll {
            count: 1,
            sides: Sides::Number(6),
            modifiers: vec![Modifier::Explode {
                penetrating: false,
                condition: Some(Condition {
                    compare: Compare::GreaterThan,
                    value: 4,
                }),
            }],
        })
    );
}

#[test]
fn test_parse_penetrating_explode() {
    let expr = parse("1d6!p").unwrap();
    assert_eq!(
        expr,
        Expr::Roll(Roll {
            count: 1,
            sides: Sides::Number(6),
            modifiers: vec![Modifier::Explode {
                penetrating: true,
                condition: None,
            }],
        })
    );
}

#[test]
fn test_parse_penetrating_explode_condition() {
    let expr = parse("1d6!p>4").unwrap();
    assert_eq!(
        expr,
        Expr::Roll(Roll {
            count: 1,
            sides: Sides::Number(6),
            modifiers: vec![Modifier::Explode {
                penetrating: true,
                condition: Some(Condition {
                    compare: Compare::GreaterThan,
                    value: 4,
                }),
            }],
        })
    );
}

#[test]
fn test_parse_percent() {
    let expr = parse("d%").unwrap();
    assert_eq!(
        expr,
        Expr::Roll(Roll {
            count: 1,
            sides: Sides::Percent,
            modifiers: vec![],
        })
    );
}

#[test]
fn test_parse_fudge() {
    let expr = parse("4dF").unwrap();
    assert_eq!(
        expr,
        Expr::Roll(Roll {
            count: 4,
            sides: Sides::Fudge,
            modifiers: vec![],
        })
    );
}

#[test]
fn test_parse_complex() {
    let expr = parse("(2d6 + 3) * 2").unwrap();
    match expr {
        Expr::BinOp { op, left, .. } => {
            assert_eq!(op, Op::Mul);
            assert!(matches!(*left, Expr::Group(_)));
        }
        _ => panic!("Expected BinOp"),
    }
}

#[test]
fn test_parse_drop_lowest() {
    let expr = parse("4d6dl1").unwrap();
    assert_eq!(
        expr,
        Expr::Roll(Roll {
            count: 4,
            sides: Sides::Number(6),
            modifiers: vec![Modifier::DropLowest(1)],
        })
    );
}

#[test]
fn test_parse_drop_highest() {
    let expr = parse("2d20dh1").unwrap();
    assert_eq!(
        expr,
        Expr::Roll(Roll {
            count: 2,
            sides: Sides::Number(20),
            modifiers: vec![Modifier::DropHighest(1)],
        })
    );
}

#[test]
fn test_parse_success_count_gte() {
    let expr = parse("5d10>=8").unwrap();
    assert_eq!(
        expr,
        Expr::Roll(Roll {
            count: 5,
            sides: Sides::Number(10),
            modifiers: vec![Modifier::CountSuccesses(Condition {
                compare: Compare::GreaterOrEqual,
                value: 8,
            })],
        })
    );
}

#[test]
fn test_parse_success_count_gt() {
    let expr = parse("6d6>4").unwrap();
    assert_eq!(
        expr,
        Expr::Roll(Roll {
            count: 6,
            sides: Sides::Number(6),
            modifiers: vec![Modifier::CountSuccesses(Condition {
                compare: Compare::GreaterThan,
                value: 4,
            })],
        })
    );
}

#[test]
fn test_parse_success_count_eq() {
    let expr = parse("8d6=6").unwrap();
    assert_eq!(
        expr,
        Expr::Roll(Roll {
            count: 8,
            sides: Sides::Number(6),
            modifiers: vec![Modifier::CountSuccesses(Condition {
                compare: Compare::Equal,
                value: 6,
            })],
        })
    );
}

#[test]
fn parse_precedence_and_negation() {
    let expr = parse("1 + 2 * -3").unwrap();
    let expected = Expr::BinOp {
        op: Op::Add,
        left: Box::new(Expr::Number(1)),
        right: Box::new(Expr::BinOp {
            op: Op::Mul,
            left: Box::new(Expr::Number(2)),
            right: Box::new(Expr::BinOp {
                op: Op::Sub,
                left: Box::new(Expr::Number(0)),
                right: Box::new(Expr::Number(3)),
            }),
        }),
    };
    assert_eq!(expr, expected);
}

#[test]
fn parse_left_associative() {
    let expr = parse("8 - 2 - 1").unwrap();
    let expected = Expr::BinOp {
        op: Op::Sub,
        left: Box::new(Expr::BinOp {
            op: Op::Sub,
            left: Box::new(Expr::Number(8)),
            right: Box::new(Expr::Number(2)),
        }),
        right: Box::new(Expr::Number(1)),
    };
    assert_eq!(expr, expected);
}

#[test]
fn parse_modifier_forms() {
    assert_eq!(
        parse("4d6k").unwrap(),
        roll_of(4, Sides::Number(6), vec![Modifier::KeepHighest(1)])
    );
    assert_eq!(
        parse("2d20kl1").unwrap(),
        roll_of(2, Sides::Number(20), vec![Modifier::KeepLowest(1)])
    );
    assert_eq!(
        parse("1d20ro").unwrap(),
        roll_of(
            1,
            Sides::Number(20),
            vec![Modifier::Reroll { once: true, condition: None }]
        )
    );
    assert_eq!(
        parse("2d6r<=2").unwrap(),
        roll_of(
            2,
            Sides::Number(6),
            vec![Modifier::Reroll {
                once: false,
                condition: Some(Condition { compare: Compare::LessOrEqual, value: 2 }),
            }]
        )
    );
    assert_eq!(
        parse("3d6<>3").unwrap(),
        roll_of(
            3,
            Sides::Number(6),
            vec![Modifier::CountSuccesses(Condition { compare: Compare::NotEqual, value: 3 })]
        )
    );
    assert_eq!(
        parse("4d6r!kh3").unwrap(),
        roll_of(
            4,
            Sides::Number(6),
            vec![
                Modifier::Reroll { once: false, condition: None },
                Modifier::Explode { penetrating: false, condition: None },
                Modifier::KeepHighest(3),
            ]
        )
    );
}

#[test]
fn parse_d_after_roll_without_h_or_l_is_not_a_modifier() {
    assert!(matches!(parse("2d6d6"), Err(Error::Expected { .. })));
}

#[test]
fn parse_errors() {
    assert!(matches!(parse("2d"), Err(Error::UnexpectedEof)));
    assert!(matches!(parse("(1 + 2"), Err(Error::UnexpectedEof)));
    assert!(matches!(parse(""), Err(Error::UnexpectedEof)));
    assert!(matches!(parse("d0"), Err(Error::InvalidDiceSides(0))));
    assert!(matches!(parse("2 $"), Err(Error::UnexpectedChar('$', 2))));
    match parse("2d6 )") {
        Err(Error::Expected { expected, found }) => {
            assert_eq!(expected, "end of input");
            assert_eq!(found, "RParen");
        }
        other => panic!("unexpected: {:?}", other),
    }
    match parse("*3") {
        Err(Error::Expected { expected, found }) => {
            assert_eq!(expected, "number, dice roll, or '('");
            assert_eq!(found, "Star");
        }
        other => panic!("unexpected: {:?}", other),
    }
    match parse("1d6>k") {
        Err(Error::Expected { expected, found }) => {
            assert_eq!(expected, "number after comparison");
            assert_eq!(found, "K");
        }
        other => panic!("unexpected: {:?}", other),
    }
}

#[test]
fn parse_trailing_number_is_named_by_variant() {
    let mut parser = Parser::new("2d6 3").unwrap();
    match parser.parse() {
        Err(Error::Expected { expected, found }) => {
            assert_eq!(expected, "end of input");
            assert_eq!(found, "Number(3)");
        }
        other => panic!("unexpected: {:?}", other),
    }
    match parse("(1 + 2 3") {
        Err(Error::Expected { expected, found }) => {
            assert_eq!(expected, "RParen");
            assert_eq!(found, "Number(3)");
        }
        other => panic!("unexpected: {:?}", other),
    }
    match parse("2dk") {
        Err(Error::Expected { expected, found }) => {
            assert_eq!(expected, "dice sides (number, %, or F)");
            assert_eq!(found, "K");
        }
        other => panic!("unexpected: {:?}", other),
    }
}

#[test]
fn parser_struct_parses_whole_input() {
    let mut parser = Parser::new("3d8 + 1").unwrap();
    let expr = parser.parse().unwrap();
    assert!(matches!(expr, Expr::BinOp { op: Op::Add, .. }));
    assert!(Parser::new("#").is_err());
}
