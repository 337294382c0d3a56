use supertimeline::expression::{
    hack_boolean_expression, is_constant, interpret_expression_string, simplify_expression, wrap_expression, Expression, ExpressionError,
    ExpressionObj, ExpressionOperator, WrappedWords,
};

fn chars(s: &str) -> Vec<char> {
    s.chars().collect()
}

#[test]
fn expression_basic_number_strings() {
    assert_eq!(
        interpret_expression_string("42").expect("Expected success"),
        Expression::Number(42)
    );
    assert_eq!(
        interpret_expression_string("+42").expect("Expected success"),
        Expression::Number(42)
    );
    assert_eq!(
        interpret_expression_string("-42").expect("Expected success"),
        Expression::Number(-42)
    );

    assert_eq!(
        interpret_expression_string("42 -").expect_err("Expected an error"),
        ExpressionError::Invalid
    );
}

#[test]
fn expression_simple_expression_strings() {
    assert_eq!(
        interpret_expression_string("1+2").expect("Expected success"),
        ExpressionObj { l: Expression::Number(1), o: ExpressionOperator::Add, r: Expression::Number(2) }.wrap()
    );
    assert_eq!(
        interpret_expression_string("   1   *   2   ").expect("Expected success"),
        ExpressionObj { l: Expression::Number(1), o: ExpressionOperator::Multiply, r: Expression::Number(2) }
            .wrap()
    );
    assert_eq!(
        interpret_expression_string("1 + 2").expect("Expected success"),
        ExpressionObj { l: Expression::Number(1), o: ExpressionOperator::Add, r: Expression::Number(2) }.wrap()
    );
    assert_eq!(
        interpret_expression_string("1 - 2").expect("Expected success"),
        ExpressionObj { l: Expression::Number(1), o: ExpressionOperator::Subtract, r: Expression::Number(2) }
            .wrap()
    );
    assert_eq!(
        interpret_expression_string("1 * 2").expect("Expected success"),
        ExpressionObj { l: Expression::Number(1), o: ExpressionOperator::Multiply, r: Expression::Number(2) }
            .wrap()
    );
    assert_eq!(
        interpret_expression_string("1 / 2").expect("Expected success"),
        ExpressionObj { l: Expression::Number(1), o: ExpressionOperator::Divide, r: Expression::Number(2) }
            .wrap()
    );
    assert_eq!(
        interpret_expression_string("1 % 2").expect("Expected success"),
        ExpressionObj { l: Expression::Number(1), o: ExpressionOperator::Remainder, r: Expression::Number(2) }
            .wrap()
    );
    assert_eq!(
        interpret_expression_string("1 + 2 * 3").expect("Expected success"),
        ExpressionObj {
            l: Expression::Number(1),
            o: ExpressionOperator::Add,
            r: ExpressionObj { l: Expression::Number(2), o: ExpressionOperator::Multiply, r: Expression::Number(3) }
                .wrap()
        }
        .wrap()
    );
    assert_eq!(
        interpret_expression_string("1 * 2 + 3").expect("Expected success"),
        ExpressionObj {
            l: ExpressionObj { l: Expression::Number(1), o: ExpressionOperator::Multiply, r: Expression::Number(2) }
                .wrap(),
            o: ExpressionOperator::Add,
            r: Expression::Number(3)
        }
        .wrap()
    );
    assert_eq!(
        interpret_expression_string("1 * (2 + 3)").expect("Expected success"),
        ExpressionObj {
            l: Expression::Number(1),
            o: ExpressionOperator::Multiply,
            r: ExpressionObj { l: Expression::Number(2), o: ExpressionOperator::Add, r: Expression::Number(3) }
                .wrap()
        }
        .wrap()
    );
    assert_eq!(
        interpret_expression_string("#first & #second").expect("Expected success"),
        ExpressionObj {
            l: Expression::String("#first".to_string()),
            o: ExpressionOperator::And,
            r: Expression::String("#second".to_string())
        }
        .wrap()
    );
    assert_eq!(
        interpret_expression_string("!thisOne").expect("Expected success"),
        Expression::Invert(Box::new(Expression::String("thisOne".to_string())))
    );
    assert_eq!(
        interpret_expression_string("!thisOne & !(that | !those)").expect("Expected success"),
        ExpressionObj {
            l: Expression::Invert(Box::new(Expression::String("thisOne".to_string()))),
            o: ExpressionOperator::And,
            r: Expression::Invert(Box::new(
                ExpressionObj {
                    l: Expression::String("that".to_string()),
                    o: ExpressionOperator::Or,
                    r: Expression::Invert(Box::new(Expression::String("those".to_string()))),
                }
                .wrap()
            ))
        }
        .wrap()
    );
    assert_eq!(
        interpret_expression_string("(!.classA | !$layer.classB) & #obj").expect("Expected success"),
        ExpressionObj {
            r: Expression::String("#obj".to_string()),
            o: ExpressionOperator::And,
            l: ExpressionObj {
                l: Expression::Invert(Box::new(Expression::String(".classA".to_string()))),
                o: ExpressionOperator::Or,
                r: Expression::Invert(Box::new(Expression::String("$layer.classB".to_string()))),
            }
            .wrap()
        }
        .wrap()
    );
    assert_eq!(
        interpret_expression_string("#obj.start").expect("Expected success"),
        Expression::String("#obj.start".to_string())
    );
    assert_eq!(interpret_expression_string("19").expect("Expected success"), Expression::Number(19));
    assert_eq!(interpret_expression_string("").expect("Expected success"), Expression::Null);
    assert_eq!(
        interpret_expression_string("1+2+3").expect("Expected success"),
        ExpressionObj {
            l: ExpressionObj { l: Expression::Number(1), o: ExpressionOperator::Add, r: Expression::Number(2) }
                .wrap(),
            o: ExpressionOperator::Add,
            r: Expression::Number(3),
        }
        .wrap()
    );
}

#[test]
fn simplify_expressions() {
    let expr1 = interpret_expression_string("1+2+3").expect("Expected success");
    assert_eq!(simplify_expression(&expr1).expect("Expected simplify"), Expression::Number(6));

    let expr2 = interpret_expression_string("1+2*2+(4-2)").expect("Expected success");
    assert_eq!(simplify_expression(&expr2).expect("Expected simplify"), Expression::Number(7));

    let expr3 = interpret_expression_string("10 / 2 + 1").expect("Expected success");
    assert_eq!(simplify_expression(&expr3).expect("Expected simplify"), Expression::Number(6));

    let expr4 = interpret_expression_string("40+2+asdf").expect("Expected success");
    assert_eq!(
        simplify_expression(&expr4).expect("Expected simplify"),
        ExpressionObj { l: Expression::Number(42), o: ExpressionOperator::Add, r: Expression::String("asdf".to_string()) }
            .wrap()
    );
}

#[test]
fn wrap_inner_expressions1() {
    let input = vec![chars("a"), chars("("), chars("b"), chars("c"), chars(")")];
    let expected = vec![
        WrappedWords::Single(chars("a")),
        WrappedWords::Group(vec![WrappedWords::Single(chars("b")), WrappedWords::Single(chars("c"))]),
    ];
    assert_eq!(wrap_expression(input).unwrap(), expected);
}

#[test]
fn wrap_unbalanced_parentheses_is_an_error() {
    assert_eq!(
        wrap_expression(vec![chars("("), chars("a")]).unwrap_err(),
        ExpressionError::MismatchedParenthesis
    );
    assert_eq!(
        wrap_expression(vec![chars("a"), chars(")")]).unwrap_err(),
        ExpressionError::MismatchedParenthesis
    );
}

#[test]
fn interpret_string_of_unbalanced_parentheses() {
    assert_eq!(
        interpret_expression_string("(1 + 2").unwrap_err(),
        ExpressionError::MismatchedParenthesis
    );
}

#[test]
fn simplify_leaves_overflow_and_division_by_zero() {
    let div0 = interpret_expression_string("1 / 0").expect("Expected success");
    assert_eq!(
        simplify_expression(&div0).expect("Expected simplify"),
        ExpressionObj { l: Expression::Number(1), o: ExpressionOperator::Divide, r: Expression::Number(0) }.wrap()
    );
    let big = ExpressionObj {
        l: Expression::Number(i64::MAX),
        o: ExpressionOperator::Add,
        r: Expression::Number(1),
    }
    .wrap();
    assert_eq!(
        simplify_expression(&big).expect("Expected simplify"),
        ExpressionObj { l: Expression::Number(i64::MAX), o: ExpressionOperator::Add, r: Expression::Number(1) }
            .wrap()
    );
}

#[test]
fn simplify_parses_strings() {
    assert_eq!(
        simplify_expression(&Expression::String("20 + 30".to_string())).expect("Expected simplify"),
        Expression::Number(50)
    );
    assert_eq!(
        simplify_expression(&Expression::String("#a.end".to_string())).expect("Expected simplify"),
        Expression::String("#a.end".to_string())
    );
}

#[test]
fn is_constant_of_expressions() {
    assert!(is_constant(&Expression::Number(3)));
    assert!(is_constant(&Expression::Null));
    assert!(!is_constant(&Expression::String("#a".to_string())));
    assert!(!is_constant(&Expression::Invert(Box::new(Expression::String("#a".to_string())))));
}

#[test]
fn boolean_while_conditions() {
    assert_eq!(hack_boolean_expression(Some(&Expression::Number(1))), Some(Expression::Bool(true)));
    assert_eq!(hack_boolean_expression(Some(&Expression::String("0".to_string()))), Some(Expression::Bool(false)));
    assert_eq!(hack_boolean_expression(Some(&Expression::String("#a".to_string()))), None);
    assert_eq!(hack_boolean_expression(None), None);
}
