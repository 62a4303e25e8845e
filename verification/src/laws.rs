//! The laws of the engine, stated and proved over the specification
//! functions that the executable contracts use.

use vstd::prelude::*;

use crate::eval::EvalItem;
use crate::eval::eval_run;
use crate::eval::eval_step;
use crate::eval::machine_reasons;
use crate::eval::machine_value;
use crate::evaluator::PredicateEvaluator;
use crate::postfix::postfix_run;
use crate::postfix::postfix_valid;
use crate::tokens::Operator;
use crate::tokens::PostfixToken;
use crate::counts::infix_closes;
use crate::counts::infix_opens;
use crate::counts::infix_ops;
use crate::counts::infix_preds;
use crate::counts::lemma_infix_run_shape;
use crate::counts::lemma_infix_valid_counts;
use crate::counts::lemma_infix_valid_op_position;
use crate::counts::lemma_infix_valid_prefix_some;
use crate::infix::InfixStackItem;
use crate::infix::infix_run;
use crate::infix::infix_valid;
use crate::infix::infix_frames;
use crate::infix::infix_value;
use crate::infix::shunting_yard;
use crate::infix::sy_run;
use crate::roundtrip::emit_ops;
use crate::roundtrip::is_op_ge;
use crate::roundtrip::left_normalize;
use crate::roundtrip::lemma_normalize_eval;
use crate::roundtrip::lemma_normalize_infix;
use crate::roundtrip::lemma_normalize_normal;
use crate::roundtrip::lemma_parse_run_is_from;
use crate::roundtrip::lemma_postfix_run_is_from;
use crate::roundtrip::lemma_sy_finish_ops;
use crate::roundtrip::lemma_sy_render_tree;
use crate::roundtrip::lemma_sy_run_is_from;
use crate::roundtrip::pending;
use crate::roundtrip::sy_entry_ok;
use crate::tokens::InfixToken;
use crate::tokens::Parenthesis;
use crate::tree::ExprTree;
use crate::tree::parse_run;
use crate::tree::postfix_parse;
use crate::tree::tree_eval;
use crate::tree::tree_infix;

verus! {

/// The evaluation machine computes, entry by entry, the truth values of the
/// parse trees: neither the cheap-value-first reordering nor the
/// short-circuiting changes a combination's value.
pub proof fn lemma_eval_run_parse<Predicate, E: PredicateEvaluator<Predicate = Predicate>>(
    s: Seq<PostfixToken<Predicate>>,
    evaluator: &E,
)
    ensures
        crate::eval::eval_run(s, evaluator).stack.len() == parse_run(s).len(),
        forall|j: int|
            0 <= j < parse_run(s).len() ==> crate::eval::item_value(
                #[trigger] crate::eval::eval_run(s, evaluator).stack[j],
                evaluator,
            ) == tree_eval(parse_run(s)[j], evaluator),
    decreases s.len(),
{
    if s.len() > 0 {
        lemma_eval_run_parse(s.drop_last(), evaluator);
    }
}

/// The number of parse trees on the stack is the operand counter of the
/// validity check.
pub proof fn lemma_parse_run_len<Predicate>(s: Seq<PostfixToken<Predicate>>)
    ensures
        postfix_run(s) matches Some(cnt) ==> parse_run(s).len() == cnt,
    decreases s.len(),
{
    if s.len() > 0 {
        lemma_parse_run_len(s.drop_last());
    }
}

/// Evaluating a valid postfix sequence yields the truth value of its parse
/// tree: evaluation order never changes the verdict.
pub proof fn lemma_evaluation_follows_structure<
    Predicate,
    E: PredicateEvaluator<Predicate = Predicate>,
>(s: Seq<PostfixToken<Predicate>>, evaluator: &E)
    requires
        postfix_valid(s),
    ensures
        machine_value(s, evaluator) == tree_eval(postfix_parse(s), evaluator),
{
    lemma_eval_run_parse(s, evaluator);
    lemma_parse_run_len(s);
    assert(parse_run(s).len() == 1);
}

/// The number of predicate tokens in a postfix sequence.
pub open spec fn postfix_predicates<Predicate>(s: Seq<PostfixToken<Predicate>>) -> int
    decreases s.len(),
{
    if s.len() == 0 {
        0int
    } else {
        postfix_predicates(s.drop_last()) + (match s.last() {
            PostfixToken::Predicate(_) => 1int,
            PostfixToken::Operator(_) => 0int,
        })
    }
}

/// The number of operator tokens in a postfix sequence.
pub open spec fn postfix_operators<Predicate>(s: Seq<PostfixToken<Predicate>>) -> int
    decreases s.len(),
{
    if s.len() == 0 {
        0int
    } else {
        postfix_operators(s.drop_last()) + (match s.last() {
            PostfixToken::Operator(_) => 1int,
            PostfixToken::Predicate(_) => 0int,
        })
    }
}

/// The operand counter of the validity check counts predicates minus
/// operators.
pub proof fn lemma_postfix_run_count<Predicate>(s: Seq<PostfixToken<Predicate>>)
    ensures
        postfix_run(s) matches Some(cnt) ==> cnt == postfix_predicates(s) - postfix_operators(s),
    decreases s.len(),
{
    if s.len() > 0 {
        lemma_postfix_run_count(s.drop_last());
    }
}

/// In every valid postfix sequence, the number of predicate tokens exceeds
/// the number of operator tokens by exactly one.
pub proof fn lemma_postfix_arity<Predicate>(s: Seq<PostfixToken<Predicate>>)
    requires
        postfix_valid(s),
    ensures
        postfix_predicates(s) - postfix_operators(s) == 1,
{
    lemma_postfix_run_count(s);
}

/// The empty sequence is not a valid postfix expression.
pub proof fn lemma_postfix_empty_invalid<Predicate>(s: Seq<PostfixToken<Predicate>>)
    requires
        s.len() == 0,
    ensures
        !postfix_valid(s),
{
}

/// A valid postfix sequence never starts with an operator.
pub proof fn lemma_postfix_no_leading_operator<Predicate>(s: Seq<PostfixToken<Predicate>>)
    requires
        postfix_valid(s),
        s.len() > 0,
    ensures
        !(s[0] is Operator),
{
    if s[0] is Operator {
        assert(s.take(1).drop_last() =~= Seq::<PostfixToken<Predicate>>::empty());
        assert(postfix_run(Seq::<PostfixToken<Predicate>>::empty()) == Some(0int));
        assert(s.take(1).last() == s[0]);
        assert(postfix_run(s.take(1)) is None);
        crate::postfix::lemma_postfix_run_none(s, 1);
    }
}

/// The empty sequence is not a valid infix expression.
pub proof fn lemma_infix_empty_invalid<Predicate>(s: Seq<InfixToken<Predicate>>)
    requires
        s.len() == 0,
    ensures
        !infix_valid(s),
{
}

/// A valid infix sequence is never empty.
pub proof fn lemma_valid_infix_nonempty<Predicate>(s: Seq<InfixToken<Predicate>>)
    requires
        infix_valid(s),
    ensures
        s.len() > 0,
{
}

/// A valid infix sequence neither starts nor ends with an operator.
pub proof fn lemma_valid_infix_no_boundary_operator<Predicate>(s: Seq<InfixToken<Predicate>>)
    requires
        infix_valid(s),
    ensures
        !(s[0] is Operator),
        !(s.last() is Operator),
{
    lemma_valid_infix_nonempty(s);
    if s[0] is Operator {
        lemma_infix_valid_op_position(s, 0);
        assert(s.take(0) =~= Seq::<InfixToken<Predicate>>::empty());
    }
    lemma_infix_valid_counts(s);
    if s.last() is Operator {
        lemma_infix_valid_prefix_some(s, s.len() - 1);
        assert(s.take(s.len() - 1) =~= s.drop_last());
    }
}

/// A valid infix sequence never holds two predicates side by side.
pub proof fn lemma_valid_infix_no_adjacent_predicates<Predicate>(
    s: Seq<InfixToken<Predicate>>,
    i: int,
)
    requires
        infix_valid(s),
        0 <= i,
        i + 1 < s.len(),
        s[i] is Predicate,
    ensures
        !(s[i + 1] is Predicate),
{
    if s[i + 1] is Predicate {
        lemma_infix_valid_prefix_some(s, i);
        lemma_infix_valid_prefix_some(s, i + 1);
        assert(s.take(i + 1).drop_last() =~= s.take(i));
        assert(s.take(i + 1).last() == s[i]);
        assert(s.take(i + 2).drop_last() =~= s.take(i + 1));
        assert(s.take(i + 2).last() == s[i + 1]);
        assert(infix_run(s.take(i + 2)) is None);
        crate::infix::lemma_infix_run_none(s, i + 2);
    }
}

/// In a valid infix sequence, a completed operand — a predicate or a close
/// parenthesis — is followed only by an operator or by another close
/// parenthesis: never by a predicate or by an open parenthesis.
pub proof fn lemma_valid_infix_operand_followers<Predicate>(s: Seq<InfixToken<Predicate>>, i: int)
    requires
        infix_valid(s),
        0 <= i,
        i + 1 < s.len(),
        s[i] is Predicate || s[i] matches InfixToken::Parenthesis(Parenthesis::Close),
    ensures
        s[i + 1] is Operator || s[i + 1] matches InfixToken::Parenthesis(Parenthesis::Close),
{
    if !(s[i + 1] is Operator || s[i + 1] matches InfixToken::Parenthesis(Parenthesis::Close)) {
        lemma_infix_valid_prefix_some(s, i);
        lemma_infix_valid_prefix_some(s, i + 1);
        assert(s.take(i + 1).drop_last() =~= s.take(i));
        assert(s.take(i + 1).last() == s[i]);
        assert(s.take(i + 2).drop_last() =~= s.take(i + 1));
        assert(s.take(i + 2).last() == s[i + 1]);
        assert(infix_run(s.take(i + 2)) is None);
        crate::infix::lemma_infix_run_none(s, i + 2);
    }
}

/// A valid infix sequence holds no empty parenthesis group: a close
/// parenthesis never directly follows an open one.
pub proof fn lemma_valid_infix_no_empty_group<Predicate>(s: Seq<InfixToken<Predicate>>, i: int)
    requires
        infix_valid(s),
        0 <= i,
        i + 1 < s.len(),
        s[i] matches InfixToken::Parenthesis(Parenthesis::Open),
    ensures
        !(s[i + 1] matches InfixToken::Parenthesis(Parenthesis::Close)),
{
    if s[i + 1] matches InfixToken::Parenthesis(Parenthesis::Close) {
        lemma_infix_valid_prefix_some(s, i);
        lemma_infix_valid_prefix_some(s, i + 1);
        assert(s.take(i + 1).drop_last() =~= s.take(i));
        assert(s.take(i + 1).last() == s[i]);
        assert(s.take(i + 2).drop_last() =~= s.take(i + 1));
        assert(s.take(i + 2).last() == s[i + 1]);
        assert(infix_run(s.take(i + 2)) is None);
        crate::infix::lemma_infix_run_none(s, i + 2);
    }
}

/// In a valid infix sequence the parentheses balance: every prefix has at
/// least as many opens as closes, and the whole sequence exactly as many.
pub proof fn lemma_valid_infix_parens_balanced<Predicate>(s: Seq<InfixToken<Predicate>>)
    requires
        infix_valid(s),
    ensures
        infix_opens(s) == infix_closes(s),
        forall|j: int|
            0 <= j <= s.len() ==> infix_opens(#[trigger] s.take(j)) >= infix_closes(s.take(j)),
{
    lemma_infix_valid_counts(s);
    assert forall|j: int|
        0 <= j <= s.len() implies infix_opens(#[trigger] s.take(j)) >= infix_closes(
        s.take(j),
    ) by {
        lemma_infix_valid_prefix_some(s, j);
        lemma_infix_run_shape(s.take(j));
    }
}

/// A sequence of operators alone is never a valid infix expression.
pub proof fn lemma_infix_only_operators_invalid<Predicate>(s: Seq<InfixToken<Predicate>>)
    requires
        forall|j: int| 0 <= j < s.len() ==> #[trigger] s[j] is Operator,
        s.len() > 0,
    ensures
        !infix_valid(s),
{
    if infix_valid(s) {
        lemma_infix_valid_counts(s);
        lemma_all_operator_counts(s);
    }
}

/// Counting a sequence of operators alone.
proof fn lemma_all_operator_counts<Predicate>(s: Seq<InfixToken<Predicate>>)
    requires
        forall|j: int| 0 <= j < s.len() ==> #[trigger] s[j] is Operator,
    ensures
        infix_preds(s) == 0,
        infix_ops(s) == s.len(),
    decreases s.len(),
{
    if s.len() > 0 {
        assert(forall|j: int|
            0 <= j < s.drop_last().len() ==> #[trigger] s.drop_last()[j] is Operator);
        lemma_all_operator_counts(s.drop_last());
    }
}

/// Evaluating a choice of two predicates whose first one is decided true
/// never consults the second: the verdict is true and the evidence is
/// exactly the first predicate's reason, whatever the evaluator would say
/// about the second predicate.
pub proof fn lemma_or_short_circuit<Predicate, E: PredicateEvaluator<Predicate = Predicate>>(
    p1: Predicate,
    p2: Predicate,
    evaluator: &E,
)
    requires
        evaluator.decide_spec(&p1),
    ensures
        machine_value(
            seq![
                PostfixToken::<Predicate>::Predicate(p1),
                PostfixToken::<Predicate>::Predicate(p2),
                PostfixToken::<Predicate>::Operator(Operator::Or),
            ],
            evaluator,
        ) == true,
        machine_reasons(
            seq![
                PostfixToken::<Predicate>::Predicate(p1),
                PostfixToken::<Predicate>::Predicate(p2),
                PostfixToken::<Predicate>::Operator(Operator::Or),
            ],
            evaluator,
        ) == seq![evaluator.reason_spec(&p1)],
{
    let s = seq![
        PostfixToken::<Predicate>::Predicate(p1),
        PostfixToken::<Predicate>::Predicate(p2),
        PostfixToken::<Predicate>::Operator(Operator::Or),
    ];
    let s2 = s.drop_last();
    let s1 = s2.drop_last();
    let s0 = s1.drop_last();
    assert(s0 =~= Seq::<PostfixToken<Predicate>>::empty());
    assert(eval_run(s0, evaluator).stack =~= Seq::<EvalItem<Predicate>>::empty());
    assert(eval_run(s0, evaluator).reasons =~= Seq::<E::Reason>::empty());
    assert(s1.last() == PostfixToken::<Predicate>::Predicate(p1));
    let e1 = eval_run(s1, evaluator);
    assert(e1.stack =~= seq![EvalItem::<Predicate>::Predicate(p1)]);
    assert(e1.reasons =~= Seq::<E::Reason>::empty());
    assert(s2.last() == PostfixToken::<Predicate>::Predicate(p2));
    let e2 = eval_run(s2, evaluator);
    assert(e2.stack =~= seq![
        EvalItem::<Predicate>::Predicate(p1),
        EvalItem::<Predicate>::Predicate(p2),
    ]);
    assert(e2.reasons =~= Seq::<E::Reason>::empty());
    assert(s.last() == PostfixToken::<Predicate>::Operator(Operator::Or));
    let e3 = eval_run(s, evaluator);
    assert(e2.stack[e2.stack.len() - 2] == EvalItem::<Predicate>::Predicate(p1));
    assert(e2.stack.last() == EvalItem::<Predicate>::Predicate(p2));
    assert(e3 == eval_step(e2, s.last(), evaluator));
    assert(e3.stack =~= seq![EvalItem::<Predicate>::Result(true)]);
    assert(e3.reasons =~= seq![evaluator.reason_spec(&p1)]);
    assert(machine_reasons(s, evaluator) =~= seq![evaluator.reason_spec(&p1)]);
}

/// Converting the rendering of any tree to postfix yields a valid postfix
/// sequence with the tree's truth value under every evaluator.
pub proof fn lemma_sy_render_value<Predicate, E: PredicateEvaluator<Predicate = Predicate>>(
    t: ExprTree<Predicate>,
    evaluator: &E,
)
    ensures
        postfix_valid(shunting_yard(tree_infix(t))),
        machine_value(shunting_yard(tree_infix(t)), evaluator) == tree_eval(t, evaluator),
{
    let n = left_normalize(t);
    lemma_normalize_infix(t);
    lemma_normalize_normal(t);
    lemma_normalize_eval(t, evaluator);
    let empty_out = Seq::<PostfixToken<Predicate>>::empty();
    let empty_st = Seq::<InfixStackItem>::empty();
    let empty_trees = Seq::<ExprTree<Predicate>>::empty();
    let r = lemma_sy_render_tree(empty_out, empty_st, n, empty_trees, evaluator);
    lemma_sy_run_is_from(tree_infix(t));
    assert(empty_out + r.0 =~= r.0);
    assert(empty_st + pending::<Predicate>(n) =~= pending::<Predicate>(n));
    assert(forall|j: int|
        0 <= j < pending::<Predicate>(n).len() ==> is_op_ge(
            #[trigger] pending::<Predicate>(n)[j],
            1,
        ));
    lemma_sy_finish_ops(r.0, pending(n));
    let u = r.0 + emit_ops::<Predicate>(pending(n));
    assert(shunting_yard(tree_infix(t)) == u);
    lemma_postfix_run_is_from(u);
    assert(postfix_valid(u));
    lemma_parse_run_is_from(u);
    assert(parse_run(u) == empty_trees.push(r.1));
    assert(postfix_parse(u) == r.1);
    lemma_evaluation_follows_structure(u, evaluator);
}

/// Converting a valid postfix expression to infix and back yields a valid
/// postfix expression with the same truth value under every evaluator: the
/// token sequence may lean differently, but never the verdict.
pub proof fn lemma_postfix_round_trip<Predicate, E: PredicateEvaluator<Predicate = Predicate>>(
    s: Seq<PostfixToken<Predicate>>,
    evaluator: &E,
)
    requires
        postfix_valid(s),
    ensures
        postfix_valid(shunting_yard(tree_infix(postfix_parse(s)))),
        machine_value(shunting_yard(tree_infix(postfix_parse(s))), evaluator) == machine_value(
            s,
            evaluator,
        ),
{
    lemma_sy_render_value(postfix_parse(s), evaluator);
    lemma_evaluation_follows_structure(s, evaluator);
}

/// Rebuilding the infix form of a valid postfix expression preserves its
/// meaning: the direct reading of the rebuilt token sequence is the truth
/// value that evaluating the postfix expression returns, under every
/// evaluator.
pub proof fn lemma_to_infix_preserves_meaning<
    Predicate,
    E: PredicateEvaluator<Predicate = Predicate>,
>(s: Seq<PostfixToken<Predicate>>, evaluator: &E)
    requires
        postfix_valid(s),
    ensures
        infix_value(tree_infix(postfix_parse(s)), evaluator) == machine_value(s, evaluator),
{
    crate::meaning::lemma_rendered_tree_value(postfix_parse(s), evaluator);
    lemma_evaluation_follows_structure(s, evaluator);
}

/// Converting any valid infix expression to postfix preserves its meaning:
/// evaluating the conversion returns the direct reading of the infix
/// tokens, under every evaluator.
pub proof fn lemma_to_postfix_preserves_meaning<
    Predicate,
    E: PredicateEvaluator<Predicate = Predicate>,
>(s: Seq<InfixToken<Predicate>>, evaluator: &E)
    requires
        infix_valid(s),
    ensures
        postfix_valid(shunting_yard(s)),
        machine_value(shunting_yard(s), evaluator) == infix_value(s, evaluator),
{
    let recs = crate::meaning::lemma_sy_value_sim(s, s.len() as int, evaluator);
    assert(s.take(s.len() as int) =~= s);
    crate::roundtrip::lemma_shunting_yard_valid(s);
    lemma_infix_valid_counts(s);
    let vst = infix_run(s)->0;
    assert(vst.levels.len() == 1);
    assert(recs.len() == 1);
    let top = recs[0];
    assert(top.vals.len() == top.ops.len() + 1);
    let out = sy_run(s).0;
    // finishing the conversion emits the one remaining level
    assert(forall|j: int|
        0 <= j < top.ops.len() ==> is_op_ge(#[trigger] top.ops[j], 1)) by {
        assert(crate::meaning::level_ok(top.ops));
    }
    assert(sy_run(s).1 == top.ops);
    lemma_sy_finish_ops(out, top.ops);
    let u = out + emit_ops::<Predicate>(top.ops);
    assert(shunting_yard(s) == u);
    // folding the level gives the one residual parse tree
    let no_recs = Seq::<crate::meaning::LevelRec<Predicate>>::empty();
    let base = Seq::<ExprTree<Predicate>>::empty();
    assert(recs.drop_last() =~= no_recs);
    assert(crate::meaning::flat_trees(no_recs) =~= base);
    assert(parse_run(out) == base + top.vals);
    let folded = crate::meaning::lemma_level_emit(base, top, evaluator);
    crate::roundtrip::lemma_parse_run_is_from(out);
    crate::roundtrip::lemma_parse_run_is_from(u);
    crate::roundtrip::lemma_parse_run_from_concat(base, out, emit_ops::<Predicate>(top.ops));
    assert(parse_run(u) == base.push(folded));
    assert(postfix_parse(u) == folded);
    lemma_evaluation_follows_structure(u, evaluator);
    // the residual tree's value is the topmost frame's value
    assert(crate::meaning::frames_of(no_recs, evaluator) =~= Seq::<
        crate::infix::ChainFrame,
    >::empty());
    assert(infix_frames(s, evaluator) =~= seq![crate::meaning::level_frame(top, evaluator)]);
}

/// Converting a valid infix expression to postfix, back to infix, and to
/// postfix once more preserves the truth value under every evaluator;
/// every step of the way is valid, and the rebuilt infix form reads
/// directly as the original one did.
pub proof fn lemma_infix_round_trip<Predicate, E: PredicateEvaluator<Predicate = Predicate>>(
    s: Seq<InfixToken<Predicate>>,
    evaluator: &E,
)
    requires
        infix_valid(s),
    ensures
        postfix_valid(shunting_yard(s)),
        machine_value(
            shunting_yard(tree_infix(postfix_parse(shunting_yard(s)))),
            evaluator,
        ) == machine_value(shunting_yard(s), evaluator),
        machine_value(shunting_yard(s), evaluator) == infix_value(s, evaluator),
        infix_value(tree_infix(postfix_parse(shunting_yard(s))), evaluator) == infix_value(
            s,
            evaluator,
        ),
{
    crate::roundtrip::lemma_shunting_yard_valid(s);
    lemma_postfix_round_trip(shunting_yard(s), evaluator);
    lemma_to_infix_preserves_meaning(shunting_yard(s), evaluator);
    lemma_to_postfix_preserves_meaning(s, evaluator);
}

/// Evaluation is deterministic: any two outcomes that meet the evaluation
/// contract for the same expression and the same evaluator coincide, in
/// verdict and in evidence.
pub proof fn lemma_evaluate_deterministic<Predicate, E: PredicateEvaluator<Predicate = Predicate>>(
    s: Seq<PostfixToken<Predicate>>,
    evaluator: &E,
    first_verdict: bool,
    first_evidence: Seq<E::Reason>,
    second_verdict: bool,
    second_evidence: Seq<E::Reason>,
)
    requires
        first_verdict == machine_value(s, evaluator),
        first_evidence == machine_reasons(s, evaluator),
        second_verdict == machine_value(s, evaluator),
        second_evidence == machine_reasons(s, evaluator),
    ensures
        first_verdict == second_verdict,
        first_evidence == second_evidence,
{
}

} // verus!
