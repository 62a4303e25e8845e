//! Counting facts about the infix validity check: how predicates,
//! operators and parentheses balance over a valid sequence, and what that
//! forces about the positions operators can stand in.

use vstd::prelude::*;

use crate::infix::InfixState;
use crate::infix::infix_accept;
use crate::infix::infix_init;
use crate::infix::infix_run;
use crate::infix::infix_valid;
use crate::infix::lemma_infix_run_none;
use crate::tokens::InfixToken;
use crate::tokens::Parenthesis;

verus! {

/// The number of predicate tokens in an infix sequence.
pub open spec fn infix_preds<Predicate>(s: Seq<InfixToken<Predicate>>) -> int
    decreases s.len(),
{
    if s.len() == 0 {
        0int
    } else {
        infix_preds(s.drop_last()) + (if s.last() is Predicate {
            1int
        } else {
            0int
        })
    }
}

/// The number of operator tokens in an infix sequence.
pub open spec fn infix_ops<Predicate>(s: Seq<InfixToken<Predicate>>) -> int
    decreases s.len(),
{
    if s.len() == 0 {
        0int
    } else {
        infix_ops(s.drop_last()) + (if s.last() is Operator {
            1int
        } else {
            0int
        })
    }
}

/// The number of open parentheses in an infix sequence.
pub open spec fn infix_opens<Predicate>(s: Seq<InfixToken<Predicate>>) -> int
    decreases s.len(),
{
    if s.len() == 0 {
        0int
    } else {
        infix_opens(s.drop_last()) + (match s.last() {
            InfixToken::Parenthesis(Parenthesis::Open) => 1int,
            _ => 0int,
        })
    }
}

/// The number of close parentheses in an infix sequence.
pub open spec fn infix_closes<Predicate>(s: Seq<InfixToken<Predicate>>) -> int
    decreases s.len(),
{
    if s.len() == 0 {
        0int
    } else {
        infix_closes(s.drop_last()) + (match s.last() {
            InfixToken::Parenthesis(Parenthesis::Close) => 1int,
            _ => 0int,
        })
    }
}

/// The number of operator tokens that stand where a predicate was expected.
/// A valid sequence has none.
pub open spec fn misplaced_ops<Predicate>(s: Seq<InfixToken<Predicate>>) -> int
    decreases s.len(),
{
    if s.len() == 0 {
        0int
    } else {
        misplaced_ops(s.drop_last()) + (if s.last() is Operator && (match infix_run(
            s.drop_last(),
        ) {
            Option::Some(st) => st.expected,
            Option::None => false,
        }) {
            1int
        } else {
            0int
        })
    }
}

/// The sum of a sequence of integers.
pub open spec fn seq_sum(s: Seq<int>) -> int
    decreases s.len(),
{
    if s.len() == 0 {
        0int
    } else {
        seq_sum(s.drop_last()) + s.last()
    }
}

/// Replacing the last element changes the sum by the difference.
pub proof fn lemma_seq_sum_update_last(s: Seq<int>, value: int)
    requires
        s.len() >= 1,
    ensures
        seq_sum(s.update(s.len() - 1, value)) == seq_sum(s) - s.last() + value,
{
    let u = s.update(s.len() - 1, value);
    assert(u.drop_last() =~= s.drop_last());
    assert(u.last() == value);
}

/// A sum of nonnegative entries is at least any one of them.
pub proof fn lemma_seq_sum_lower(s: Seq<int>, j: int)
    requires
        forall|k: int| 0 <= k < s.len() ==> #[trigger] s[k] >= 0,
        0 <= j < s.len(),
    ensures
        seq_sum(s) >= s[j],
    decreases s.len(),
{
    if j == s.len() - 1 {
        lemma_seq_sum_nonneg(s.drop_last());
    } else {
        lemma_seq_sum_lower(s.drop_last(), j);
    }
}

/// A sum of nonnegative entries is nonnegative.
pub proof fn lemma_seq_sum_nonneg(s: Seq<int>)
    requires
        forall|k: int| 0 <= k < s.len() ==> #[trigger] s[k] >= 0,
    ensures
        seq_sum(s) >= 0,
    decreases s.len(),
{
    if s.len() > 0 {
        lemma_seq_sum_nonneg(s.drop_last());
    }
}

/// What one run of the validity check preserves: the operand count follows
/// the token counts and the pending operators, every predicate slot is
/// accounted for, and no count drops below zero.
pub proof fn lemma_infix_run_shape<Predicate>(s: Seq<InfixToken<Predicate>>)
    ensures
        infix_run(s) matches Some(st) ==> {
            &&& st.levels.len() >= 1
            &&& st.levels.len() == 1 + infix_opens(s) - infix_closes(s)
            &&& forall|j: int| 0 <= j < st.levels.len() ==> #[trigger] st.levels[j] >= 0
            &&& st.cnt >= 0
            &&& st.cnt == infix_preds(s) - infix_ops(s) + seq_sum(st.levels)
            &&& infix_preds(s) == infix_ops(s) - misplaced_ops(s) + (if st.expected {
                0int
            } else {
                1int
            })
            &&& misplaced_ops(s) >= 0
        },
    decreases s.len(),
{
    if s.len() == 0 {
        assert(seq![0int].drop_last() =~= Seq::<int>::empty());
        assert(seq_sum(Seq::<int>::empty()) == 0);
    } else {
        lemma_infix_run_shape(s.drop_last());
        if infix_run(s) is Some {
            let prev = infix_run(s.drop_last())->0;
            assert(seq_sum(prev.levels) == seq_sum(prev.levels.drop_last()) + prev.levels.last());
            match s.last() {
                InfixToken::Predicate(_) => {},
                InfixToken::Operator(_) => {
                    lemma_seq_sum_update_last(prev.levels, prev.levels.last() + 1);
                },
                InfixToken::Parenthesis(Parenthesis::Open) => {
                    assert(prev.levels.push(0).drop_last() =~= prev.levels);
                },
                InfixToken::Parenthesis(Parenthesis::Close) => {},
            }
        }
    }
}

/// What acceptance forces: one more predicate than operators, parentheses
/// in balance, no operator in a predicate slot, and no predicate expected
/// when the input ends.
pub proof fn lemma_infix_valid_counts<Predicate>(s: Seq<InfixToken<Predicate>>)
    requires
        infix_valid(s),
    ensures
        infix_preds(s) == infix_ops(s) + 1,
        infix_opens(s) == infix_closes(s),
        misplaced_ops(s) == 0,
        infix_run(s) matches Some(st) && !st.expected,
{
    lemma_infix_run_shape(s);
    let st = infix_run(s)->0;
    assert(infix_accept(st));
    assert(st.levels.len() == 1);
    assert(st.levels.drop_last() =~= Seq::<int>::empty());
    assert(seq_sum(Seq::<int>::empty()) == 0);
    assert(seq_sum(st.levels) == st.levels[0]);
}

/// Earlier misplaced operators never disappear.
pub proof fn lemma_misplaced_ops_monotone<Predicate>(s: Seq<InfixToken<Predicate>>, j: int)
    requires
        0 <= j <= s.len(),
    ensures
        misplaced_ops(s.take(j)) <= misplaced_ops(s),
    decreases s.len() - j,
{
    if j == s.len() {
        assert(s.take(j) =~= s);
    } else {
        assert(s.take(j + 1).drop_last() =~= s.take(j));
        lemma_infix_run_shape(s.take(j));
        lemma_misplaced_ops_monotone(s, j + 1);
    }
}

/// In a valid sequence, the check runs through every prefix.
pub proof fn lemma_infix_valid_prefix_some<Predicate>(s: Seq<InfixToken<Predicate>>, j: int)
    requires
        infix_valid(s),
        0 <= j <= s.len(),
    ensures
        infix_run(s.take(j)) is Some,
{
    if infix_run(s.take(j)) is None {
        lemma_infix_run_none(s, j);
    }
}

/// In a valid sequence, every operator stands right after a predicate or a
/// close parenthesis: the check never expects a predicate there.
pub proof fn lemma_infix_valid_op_position<Predicate>(s: Seq<InfixToken<Predicate>>, i: int)
    requires
        infix_valid(s),
        0 <= i < s.len(),
        s[i] is Operator,
    ensures
        infix_run(s.take(i)) matches Some(st) && !st.expected,
{
    lemma_infix_valid_prefix_some(s, i);
    let st = infix_run(s.take(i))->0;
    if st.expected {
        assert(s.take(i + 1).drop_last() =~= s.take(i));
        assert(s.take(i + 1).last() == s[i]);
        lemma_infix_run_shape(s.take(i));
        assert(misplaced_ops(s.take(i + 1)) >= 1);
        lemma_misplaced_ops_monotone(s, i + 1);
        lemma_infix_valid_counts(s);
    }
}

} // verus!
