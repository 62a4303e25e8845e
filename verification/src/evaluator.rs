//! The evaluator capability: caller-supplied logic that decides the truth
//! value of a single predicate and names a reason for it.

use vstd::prelude::*;

verus! {

/// Decides one predicate instance and produces a supporting reason for it.
///
/// Callers implement this trait once per kind of subject that predicates are
/// matched against.  The two spec functions give the mathematical meaning of
/// the two decision methods; every contract of this crate that speaks of an
/// evaluation result speaks through them.
pub trait PredicateEvaluator {
    type Predicate;

    type Reason;

    /// The truth value this evaluator assigns to `predicate`.  An
    /// implementation that does not say leaves it unspecified.
    open spec fn decide_spec(&self, predicate: &Self::Predicate) -> bool {
        arbitrary()
    }

    /// The reason this evaluator gives for `predicate`.  An implementation
    /// that does not say leaves it unspecified.
    open spec fn reason_spec(&self, predicate: &Self::Predicate) -> Self::Reason {
        arbitrary()
    }

    /// Resolves one predicate instance to its truth value.
    fn evaluate_predicate(&self, predicate: &Self::Predicate) -> (result: bool)
        ensures
            result == self.decide_spec(predicate),
    ;

    /// Names the reason behind the decision for `predicate`.
    fn get_reason(&self, predicate: &Self::Predicate) -> (reason: Self::Reason)
        ensures
            reason == self.reason_spec(predicate),
    ;

    /// Resolves one predicate instance while maintaining the evidence list:
    /// a decision that comes out true appends its reason, one that comes out
    /// false discards all evidence collected so far.
    fn evaluate_predicate_with_reasons(
        &self,
        predicate: &Self::Predicate,
        reasons: &mut Vec<Self::Reason>,
    ) -> (result: bool)
        ensures
            result == self.decide_spec(predicate),
            result ==> final(reasons)@ == old(reasons)@.push(self.reason_spec(predicate)),
            !result ==> final(reasons)@ == Seq::<Self::Reason>::empty(),
    {
        let result = self.evaluate_predicate(predicate);

        if result {
            let reason = self.get_reason(predicate);
            reasons.push(reason);
        } else {
            reasons.clear();
        }

        result
    }
}

} // verus!
