//! The stack machine that evaluates a postfix expression, together with its
//! specification: which truth value comes out, which predicates are forced,
//! and what evidence is left behind.

use vstd::prelude::*;

use crate::evaluator::PredicateEvaluator;
use crate::tokens::Operator;
use crate::tokens::PostfixToken;

verus! {

/// One entry of the evaluation stack, at the specification level: a
/// predicate not yet decided, or a truth value already combined.
pub enum EvalItem<Predicate> {
    Predicate(Predicate),
    Result(bool),
}

/// The full state of the evaluation machine: its stack and the evidence
/// collected so far.
pub struct EvalState<Predicate, Reason> {
    pub stack: Seq<EvalItem<Predicate>>,
    pub reasons: Seq<Reason>,
}

/// The truth value a stack entry stands for under `evaluator`.
pub open spec fn item_value<Predicate, E: PredicateEvaluator<Predicate = Predicate>>(
    item: EvalItem<Predicate>,
    evaluator: &E,
) -> bool {
    match item {
        EvalItem::Predicate(p) => evaluator.decide_spec(&p),
        EvalItem::Result(result) => result,
    }
}

/// The evidence after forcing one stack entry: deciding a predicate true
/// appends its reason, deciding it false discards all evidence collected so
/// far, and an already-combined result leaves the evidence alone.
pub open spec fn force_reasons<Predicate, E: PredicateEvaluator<Predicate = Predicate>>(
    item: EvalItem<Predicate>,
    reasons: Seq<E::Reason>,
    evaluator: &E,
) -> Seq<E::Reason> {
    match item {
        EvalItem::Predicate(p) => if evaluator.decide_spec(&p) {
            reasons.push(evaluator.reason_spec(&p))
        } else {
            Seq::<E::Reason>::empty()
        },
        EvalItem::Result(_) => reasons,
    }
}

/// The evaluation order of the two operands popped for an operator: an
/// undecided predicate in first position trades places with an
/// already-combined result in second position, so the value that costs
/// nothing is examined first.
pub open spec fn reorder<Predicate>(first: EvalItem<Predicate>, second: EvalItem<Predicate>) -> (
    EvalItem<Predicate>,
    EvalItem<Predicate>,
) {
    if first is Predicate && second is Result {
        (second, first)
    } else {
        (first, second)
    }
}

/// Whether the truth value of the operand examined first already decides
/// the combination, so that the second operand is never forced.
pub open spec fn short_circuits(op: Operator, first_value: bool) -> bool {
    match op {
        Operator::And => !first_value,
        Operator::Or => first_value,
    }
}

/// One token of the evaluation machine.  A predicate is pushed undecided.
/// An operator pops its two operands, puts them in evaluation order, and
/// forces the first; if that value decides the combination the second
/// operand is never forced, otherwise the combination's value is the
/// second's.  A malformed sequence that leaves an operator fewer than two
/// operands leaves the state unchanged.
pub open spec fn eval_step<Predicate, E: PredicateEvaluator<Predicate = Predicate>>(
    st: EvalState<Predicate, E::Reason>,
    t: PostfixToken<Predicate>,
    evaluator: &E,
) -> EvalState<Predicate, E::Reason> {
    match t {
        PostfixToken::Predicate(p) => EvalState {
            stack: st.stack.push(EvalItem::Predicate(p)),
            reasons: st.reasons,
        },
        PostfixToken::Operator(op) => if st.stack.len() >= 2 {
            let ordered = reorder(st.stack[st.stack.len() - 2], st.stack.last());
            let first_value = item_value(ordered.0, evaluator);
            let after_first = force_reasons(ordered.0, st.reasons, evaluator);
            let rest = st.stack.drop_last().drop_last();
            if short_circuits(op, first_value) {
                EvalState { stack: rest.push(EvalItem::Result(first_value)), reasons: after_first }
            } else {
                EvalState {
                    stack: rest.push(EvalItem::Result(item_value(ordered.1, evaluator))),
                    reasons: force_reasons(ordered.1, after_first, evaluator),
                }
            }
        } else {
            st
        },
    }
}

/// The machine state after running all of `s` against `evaluator`.
pub open spec fn eval_run<Predicate, E: PredicateEvaluator<Predicate = Predicate>>(
    s: Seq<PostfixToken<Predicate>>,
    evaluator: &E,
) -> EvalState<Predicate, E::Reason>
    decreases s.len(),
{
    if s.len() == 0 {
        EvalState { stack: Seq::<EvalItem<Predicate>>::empty(), reasons: Seq::<E::Reason>::empty() }
    } else {
        eval_step(eval_run(s.drop_last(), evaluator), s.last(), evaluator)
    }
}

/// The truth value that evaluating `s` against `evaluator` returns: the one
/// residual stack entry, forced.
pub open spec fn machine_value<Predicate, E: PredicateEvaluator<Predicate = Predicate>>(
    s: Seq<PostfixToken<Predicate>>,
    evaluator: &E,
) -> bool {
    let st = eval_run(s, evaluator);
    item_value(st.stack.last(), evaluator)
}

/// The evidence that evaluating `s` against `evaluator` leaves behind, the
/// final forcing included.
pub open spec fn machine_reasons<Predicate, E: PredicateEvaluator<Predicate = Predicate>>(
    s: Seq<PostfixToken<Predicate>>,
    evaluator: &E,
) -> Seq<E::Reason> {
    let st = eval_run(s, evaluator);
    force_reasons(st.stack.last(), st.reasons, evaluator)
}

/// One entry of the evaluation stack at run time, borrowing its predicate
/// from the expression being evaluated.
#[derive(Clone, Copy)]
pub enum PostfixStackItem<'a, Predicate> {
    Predicate(&'a Predicate),
    Result(bool),
}

impl<'a, Predicate> PostfixStackItem<'a, Predicate> {
    /// The specification-level entry this run-time entry stands for.
    pub open spec fn abs(self) -> EvalItem<Predicate> {
        match self {
            PostfixStackItem::Predicate(p) => EvalItem::Predicate(*p),
            PostfixStackItem::Result(result) => EvalItem::Result(result),
        }
    }

    /// Forces this entry to a truth value, deciding the predicate and
    /// maintaining the evidence if it has not been decided yet.
    pub fn evaluate<E: PredicateEvaluator<Predicate = Predicate>>(
        &self,
        evaluator: &E,
        reasons: &mut Vec<E::Reason>,
    ) -> (result: bool)
        ensures
            result == item_value(self.abs(), evaluator),
            final(reasons)@ == force_reasons(self.abs(), old(reasons)@, evaluator),
    {
        match self {
            PostfixStackItem::Predicate(predicate) => evaluator.evaluate_predicate_with_reasons(
                predicate,
                reasons,
            ),
            PostfixStackItem::Result(result) => *result,
        }
    }
}

} // verus!
