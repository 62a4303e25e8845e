//! The legacy reverse-Polish flavour: unvalidated token sequences whose
//! evaluation reports failure instead of rejecting tokens up front.

use vstd::prelude::*;

verus! {

/// One of the two binary connectives of the legacy flavour.
#[derive(PartialEq, Eq, Structural, Copy, Clone, Debug)]
pub enum RpnOperator {
    And,
    Or,
}

/// One position of a legacy reverse-Polish expression.
#[derive(Debug, PartialEq)]
pub enum RpnToken<Predicate> {
    Operator(RpnOperator),
    Predicate(Predicate),
}

/// Decides one predicate instance; the legacy capability has no reasons.
pub trait RpnPredicateEvaluator {
    type Predicate;

    /// The truth value this evaluator assigns to `predicate`.  An
    /// implementation that does not say leaves it unspecified.
    open spec fn decide_spec(&self, predicate: &Self::Predicate) -> bool {
        arbitrary()
    }

    /// Resolves one predicate instance to its truth value.
    fn evaluate_predicate(&self, predicate: &Self::Predicate) -> (result: bool)
        ensures
            result == self.decide_spec(predicate),
    ;
}

/// The truth value of combining `left` and `right` with `op`.
pub open spec fn rpn_apply(op: RpnOperator, left: bool, right: bool) -> bool {
    match op {
        RpnOperator::And => left && right,
        RpnOperator::Or => left || right,
    }
}

/// The stack of truth values after running `s` as a stack program against
/// `evaluator`, from the left: a predicate pushes its decision, an operator
/// pops two values and pushes their combination.  `None` means the stack ran
/// dry at some operator; a failure is permanent.
pub open spec fn rpn_run<Predicate, E: RpnPredicateEvaluator<Predicate = Predicate>>(
    s: Seq<RpnToken<Predicate>>,
    evaluator: &E,
) -> Option<Seq<bool>>
    decreases s.len(),
{
    if s.len() == 0 {
        Some(Seq::<bool>::empty())
    } else {
        match rpn_run(s.drop_last(), evaluator) {
            Option::None => Option::<Seq<bool>>::None,
            Option::Some(stack) => match s.last() {
                RpnToken::Predicate(p) => Some(stack.push(evaluator.decide_spec(&p))),
                RpnToken::Operator(op) => if stack.len() >= 2 {
                    Some(
                        stack.drop_last().drop_last().push(
                            rpn_apply(op, stack[stack.len() - 2], stack.last()),
                        ),
                    )
                } else {
                    Option::<Seq<bool>>::None
                },
            },
        }
    }
}

/// What evaluating `s` against `evaluator` returns: the topmost truth value
/// left on the stack, or `None` when the stack ran dry or ended empty.
pub open spec fn rpn_eval<Predicate, E: RpnPredicateEvaluator<Predicate = Predicate>>(
    s: Seq<RpnToken<Predicate>>,
    evaluator: &E,
) -> Option<bool> {
    match rpn_run(s, evaluator) {
        Option::None => Option::<bool>::None,
        Option::Some(stack) => if stack.len() >= 1 {
            Some(stack.last())
        } else {
            Option::<bool>::None
        },
    }
}

/// Once the stack has run dry on a prefix, it stays dry on the whole
/// sequence.
proof fn lemma_rpn_run_none<Predicate, E: RpnPredicateEvaluator<Predicate = Predicate>>(
    s: Seq<RpnToken<Predicate>>,
    evaluator: &E,
    j: int,
)
    requires
        0 <= j <= s.len(),
        rpn_run(s.take(j), evaluator) is None,
    ensures
        rpn_run(s, evaluator) is None,
    decreases s.len() - j,
{
    if j == s.len() {
        assert(s.take(j) =~= s);
    } else {
        assert(s.take(j + 1).drop_last() =~= s.take(j));
        lemma_rpn_run_none(s, evaluator, j + 1);
    }
}

/// One entry of the legacy evaluation stack: a predicate not yet decided, or
/// a truth value already combined.
pub enum StackItem<'a, Predicate> {
    Predicate(&'a Predicate),
    Result(bool),
}

impl<'a, Predicate> StackItem<'a, Predicate> {
    /// The truth value this entry stands for under `evaluator`.
    pub open spec fn sem<E: RpnPredicateEvaluator<Predicate = Predicate>>(
        self,
        evaluator: &E,
    ) -> bool {
        match self {
            StackItem::Predicate(p) => evaluator.decide_spec(p),
            StackItem::Result(result) => result,
        }
    }

    /// Forces this entry to a truth value, deciding the predicate if it has
    /// not been decided yet.
    pub fn evaluate<E: RpnPredicateEvaluator<Predicate = Predicate>>(
        &self,
        evaluator: &E,
    ) -> (result: bool)
        ensures
            result == self.sem(evaluator),
    {
        match self {
            StackItem::Predicate(predicate) => evaluator.evaluate_predicate(predicate),
            StackItem::Result(result) => *result,
        }
    }
}

/// A legacy reverse-Polish expression: an unvalidated token sequence.
pub struct RpnExpression<Predicate> {
    tokens: Vec<RpnToken<Predicate>>,
}

impl<Predicate> View for RpnExpression<Predicate> {
    type V = Seq<RpnToken<Predicate>>;

    closed spec fn view(&self) -> Seq<RpnToken<Predicate>> {
        self.tokens@
    }
}

impl<Predicate> RpnExpression<Predicate> {
    /// Wraps a token sequence without validating it; evaluation reports
    /// failure on a malformed sequence instead.
    pub fn from_tokens(tokens: Vec<RpnToken<Predicate>>) -> (result: Self)
        ensures
            result@ == tokens@,
    {
        RpnExpression { tokens }
    }

    /// Runs the expression as a stack program against `evaluator` and
    /// returns the topmost truth value, or `None` when the sequence is
    /// malformed.  Already-combined truth values are preferred over undecided
    /// predicates, and a decided first operand short-circuits the second.
    pub fn evaluate<E: RpnPredicateEvaluator<Predicate = Predicate>>(
        &self,
        evaluator: &E,
    ) -> (result: Option<bool>)
        ensures
            result == rpn_eval(self@, evaluator),
    {
        let ghost s = self@;
        let mut stack: Vec<StackItem<Predicate>> = Vec::new();
        let n = self.tokens.len();
        let mut i: usize = 0;
        while i < n
            invariant
                n == s.len(),
                0 <= i <= n,
                self@ == s,
                rpn_run(s.take(i as int), evaluator) matches Some(model) && {
                    &&& model.len() == stack@.len()
                    &&& forall|j: int|
                        0 <= j < model.len() ==> model[j] == #[trigger] stack@[j].sem(evaluator)
                },
            decreases n - i,
        {
            proof {
                assert(s.take(i + 1).drop_last() =~= s.take(i as int));
                assert(s.take(i + 1).last() == s[i as int]);
            }
            match &self.tokens[i] {
                RpnToken::Operator(op) => {
                    if stack.len() < 2 {
                        proof {
                            lemma_rpn_run_none(s, evaluator, i + 1);
                        }
                        return None;
                    }
                    let mut second = stack.pop().unwrap();
                    let mut first = stack.pop().unwrap();
                    if matches!(first, StackItem::Predicate(_))
                        && matches!(second, StackItem::Result(_)) {
                        let undecided = first;
                        first = second;
                        second = undecided;
                    }
                    let result = match op {
                        RpnOperator::And => first.evaluate(evaluator)
                            && second.evaluate(evaluator),
                        RpnOperator::Or => first.evaluate(evaluator)
                            || second.evaluate(evaluator),
                    };
                    stack.push(StackItem::Result(result));
                },
                RpnToken::Predicate(p) => {
                    stack.push(StackItem::Predicate(p));
                },
            }
            i = i + 1;
        }
        proof {
            assert(s.take(n as int) =~= s);
        }
        match stack.pop() {
            Option::None => None,
            Option::Some(top) => Some(top.evaluate(evaluator)),
        }
    }
}

} // verus!
