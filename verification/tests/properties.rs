use rpn_predicate_interpreter::{
    InfixExpression, InfixToken, Operator, Parenthesis, PostfixExpression, PostfixToken,
    PredicateEvaluator,
};

struct Threshold {
    limit: i32,
}

impl PredicateEvaluator for Threshold {
    type Predicate = i32;
    type Reason = i32;

    fn evaluate_predicate(&self, predicate: &Self::Predicate) -> bool {
        *predicate <= self.limit
    }

    fn get_reason(&self, predicate: &Self::Predicate) -> Self::Reason {
        *predicate
    }
}

/// Panics when asked to decide the forbidden predicate; evaluating through
/// it shows which predicates are never consulted.
struct Tripwire {
    forbidden: i32,
}

impl PredicateEvaluator for Tripwire {
    type Predicate = i32;
    type Reason = i32;

    fn evaluate_predicate(&self, predicate: &Self::Predicate) -> bool {
        assert!(
            *predicate != self.forbidden,
            "a short-circuited predicate was decided"
        );
        true
    }

    fn get_reason(&self, predicate: &Self::Predicate) -> Self::Reason {
        *predicate
    }
}

#[test]
fn test_threshold_evaluator_and() {
    let expr = PostfixExpression::from_tokens(vec![
        PostfixToken::Predicate(1),
        PostfixToken::Predicate(5),
        PostfixToken::Operator(Operator::And),
    ])
    .unwrap();

    let res = expr.evaluate(&Threshold { limit: 5 });
    assert!(res.0);
    assert_eq!(res.1, vec![1, 5]);

    let res = expr.evaluate(&Threshold { limit: 3 });
    assert!(!res.0);
    assert!(res.1.is_empty());
}

#[test]
fn test_infix_invalid_empty() {
    let infix = InfixExpression::<i32>::from_tokens(Vec::new());
    assert!(infix.is_none());
}

#[test]
fn test_postfix_invalid_empty() {
    let postfix = PostfixExpression::<i32>::from_tokens(Vec::new());
    assert!(postfix.is_none());
}

#[test]
fn test_infix_invalid_predicate_after_group() {
    // 1 AND ( 2 OR ) 3: the parenthesized operator may not borrow its
    // missing operand from outside the group
    let infix = InfixExpression::from_tokens(vec![
        InfixToken::Predicate(1),
        InfixToken::Operator(Operator::And),
        InfixToken::Parenthesis(Parenthesis::Open),
        InfixToken::Predicate(2),
        InfixToken::Operator(Operator::Or),
        InfixToken::Parenthesis(Parenthesis::Close),
        InfixToken::Predicate(3),
    ]);
    assert!(infix.is_none());
}

#[test]
fn test_infix_invalid_adjacent_groups() {
    // ( 1 ) ( 2 ): a group may not follow a completed operand
    let infix = InfixExpression::from_tokens(vec![
        InfixToken::Parenthesis(Parenthesis::Open),
        InfixToken::Predicate(1),
        InfixToken::Parenthesis(Parenthesis::Close),
        InfixToken::Parenthesis(Parenthesis::Open),
        InfixToken::Predicate(2),
        InfixToken::Parenthesis(Parenthesis::Close),
    ]);
    assert!(infix.is_none());
}

#[test]
fn test_infix_invalid_trailing_empty_group() {
    // ( 1 ) ( ): neither the second open nor the empty group is grammatical
    let infix = InfixExpression::from_tokens(vec![
        InfixToken::Parenthesis(Parenthesis::Open),
        InfixToken::Predicate(1),
        InfixToken::Parenthesis(Parenthesis::Close),
        InfixToken::Parenthesis(Parenthesis::Open),
        InfixToken::Parenthesis(Parenthesis::Close),
    ]);
    assert!(infix.is_none());
}

#[test]
fn test_infix_invalid_empty_group_operand() {
    // 1 AND ( ): an empty group is not an operand
    let infix = InfixExpression::from_tokens(vec![
        InfixToken::Predicate(1),
        InfixToken::Operator(Operator::And),
        InfixToken::Parenthesis(Parenthesis::Open),
        InfixToken::Parenthesis(Parenthesis::Close),
    ]);
    assert!(infix.is_none());
}

#[test]
fn test_postfix_arity_of_valid_sequence() {
    // a b AND c d OR AND: 4 predicates and 3 operators, one apart
    let tokens = vec![
        PostfixToken::Predicate(1),
        PostfixToken::Predicate(2),
        PostfixToken::Operator(Operator::And),
        PostfixToken::Predicate(3),
        PostfixToken::Predicate(4),
        PostfixToken::Operator(Operator::Or),
        PostfixToken::Operator(Operator::And),
    ];
    let predicates = tokens
        .iter()
        .filter(|t| matches!(t, PostfixToken::Predicate(_)))
        .count();
    let operators = tokens
        .iter()
        .filter(|t| matches!(t, PostfixToken::Operator(_)))
        .count();
    assert!(PostfixExpression::from_tokens(tokens).is_some());
    assert_eq!(predicates - operators, 1);

    // equal counts cannot be valid
    let unbalanced = vec![
        PostfixToken::Predicate(1),
        PostfixToken::Predicate(2),
        PostfixToken::Operator(Operator::And),
        PostfixToken::Operator(Operator::Or),
    ];
    assert!(PostfixExpression::from_tokens(unbalanced).is_none());
}

#[test]
fn test_or_short_circuit_skips_second_predicate() {
    // 1 2 OR where predicate 1 resolves true: predicate 2 must never be
    // decided, and the evidence holds exactly predicate 1's reason
    let expr = PostfixExpression::from_tokens(vec![
        PostfixToken::Predicate(1),
        PostfixToken::Predicate(2),
        PostfixToken::Operator(Operator::Or),
    ])
    .unwrap();

    let res = expr.evaluate(&Tripwire { forbidden: 2 });
    assert!(res.0);
    assert_eq!(res.1, vec![1]);
}

#[test]
fn test_evaluate_twice_is_deterministic() {
    let expr = PostfixExpression::from_tokens(vec![
        PostfixToken::Predicate(2),
        PostfixToken::Predicate(7),
        PostfixToken::Operator(Operator::Or),
        PostfixToken::Predicate(4),
        PostfixToken::Operator(Operator::And),
    ])
    .unwrap();

    let evaluator = Threshold { limit: 4 };
    let first = expr.evaluate(&evaluator);
    let second = expr.evaluate(&evaluator);
    assert_eq!(first.0, second.0);
    assert_eq!(first.1, second.1);
}

#[test]
fn test_infix_round_trip_evaluates_identically() {
    // 1 AND ( 2 OR 3 ): through postfix and back, the verdict is unchanged
    // for every threshold
    let tokens = vec![
        InfixToken::Predicate(1),
        InfixToken::Operator(Operator::And),
        InfixToken::Parenthesis(Parenthesis::Open),
        InfixToken::Predicate(2),
        InfixToken::Operator(Operator::Or),
        InfixToken::Predicate(3),
        InfixToken::Parenthesis(Parenthesis::Close),
    ];
    for limit in 0..5 {
        let original = InfixExpression::from_tokens(tokens.clone()).unwrap();
        let round_trip = original.to_postfix().unwrap().to_infix();

        let original = InfixExpression::from_tokens(tokens.clone()).unwrap();
        let evaluator = Threshold { limit };
        let before = original.to_postfix().unwrap().evaluate(&evaluator);
        let after = round_trip.to_postfix().unwrap().evaluate(&evaluator);
        assert_eq!(before.0, after.0);
    }
}

#[test]
fn test_postfix_round_trip_evaluates_identically() {
    // 1 2 3 OR AND: through infix and back, the verdict is unchanged for
    // every threshold
    let tokens = vec![
        PostfixToken::Predicate(1),
        PostfixToken::Predicate(2),
        PostfixToken::Predicate(3),
        PostfixToken::Operator(Operator::Or),
        PostfixToken::Operator(Operator::And),
    ];
    for limit in 0..5 {
        let original = PostfixExpression::from_tokens(tokens.clone()).unwrap();
        let round_trip = original.to_infix().to_postfix().unwrap();
        let original = PostfixExpression::from_tokens(tokens.clone()).unwrap();

        assert_eq!(round_trip.get_tokens(), original.get_tokens());

        let evaluator = Threshold { limit };
        let before = original.evaluate(&evaluator);
        let after = round_trip.evaluate(&evaluator);
        assert_eq!(before.0, after.0);
    }
}

#[test]
fn test_infix_redundant_parentheses_convert() {
    let infix = InfixExpression::from_tokens(vec![
        InfixToken::Parenthesis(Parenthesis::Open),
        InfixToken::Parenthesis(Parenthesis::Open),
        InfixToken::Predicate(7),
        InfixToken::Parenthesis(Parenthesis::Close),
        InfixToken::Parenthesis(Parenthesis::Close),
    ])
    .unwrap();
    let postfix = infix.to_postfix().unwrap();
    assert_eq!(
        postfix,
        PostfixExpression::from_tokens(vec![PostfixToken::Predicate(7)]).unwrap()
    );
}

#[test]
fn test_get_tokens_returns_the_tokens() {
    let tokens = vec![
        PostfixToken::Predicate(8),
        PostfixToken::Predicate(9),
        PostfixToken::Operator(Operator::Or),
    ];
    let expr = PostfixExpression::from_tokens(tokens.clone()).unwrap();
    assert_eq!(expr.get_tokens(), &tokens);
}
