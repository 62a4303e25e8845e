use rpn_predicate_interpreter::{Operator, PostfixStackItem, PredicateEvaluator};

struct MyInteger {
    val: i32,
}

impl PredicateEvaluator for MyInteger {
    type Predicate = bool;
    type Reason = String;

    fn evaluate_predicate(&self, predicate: &Self::Predicate) -> bool {
        if self.val >= 0 {
            *predicate
        } else {
            !*predicate
        }
    }

    fn get_reason(&self, _predicate: &Self::Predicate) -> Self::Reason {
        String::new()
    }
}

#[test]
fn test_operators_precedence() {
    assert!(Operator::And.precedence() > Operator::Or.precedence());
}

#[test]
fn test_postfix_stack_item_evaluate() {
    let p1 = false;
    let p2 = true;
    let int1 = MyInteger { val: -1 };
    let int2 = MyInteger { val: 0 };
    let int3 = MyInteger { val: 1 };

    assert!(!PostfixStackItem::<bool>::Result(p1).evaluate(&int1, &mut Vec::new()));
    assert!(!PostfixStackItem::<bool>::Result(p1).evaluate(&int2, &mut Vec::new()));
    assert!(!PostfixStackItem::<bool>::Result(p1).evaluate(&int3, &mut Vec::new()));

    assert!(PostfixStackItem::<bool>::Result(p2).evaluate(&int1, &mut Vec::new()));
    assert!(PostfixStackItem::<bool>::Result(p2).evaluate(&int2, &mut Vec::new()));
    assert!(PostfixStackItem::<bool>::Result(p2).evaluate(&int3, &mut Vec::new()));

    assert!(PostfixStackItem::Predicate(&p1).evaluate(&int1, &mut Vec::new()));
    assert!(!PostfixStackItem::Predicate(&p1).evaluate(&int2, &mut Vec::new()));
    assert!(!PostfixStackItem::Predicate(&p1).evaluate(&int3, &mut Vec::new()));

    assert!(!PostfixStackItem::Predicate(&p2).evaluate(&int1, &mut Vec::new()));
    assert!(PostfixStackItem::Predicate(&p2).evaluate(&int2, &mut Vec::new()));
    assert!(PostfixStackItem::Predicate(&p2).evaluate(&int3, &mut Vec::new()));
}
