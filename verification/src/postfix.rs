//! Postfix (reverse-Polish) expressions: validity, construction, evaluation
//! and reconstruction of an infix form.

use vstd::prelude::*;

use crate::eval::PostfixStackItem;
use crate::eval::eval_run;
use crate::eval::machine_reasons;
use crate::eval::machine_value;
use crate::evaluator::PredicateEvaluator;
use crate::infix::InfixExpression;
use crate::tokens::InfixToken;
use crate::tokens::Operator;
use crate::tokens::Parenthesis;
use crate::tokens::PostfixToken;
use crate::tree::ExprTree;
use crate::tree::lemma_tree_infix_valid;
use crate::tree::needs_parens;
use crate::tree::parse_run;
use crate::tree::postfix_parse;
use crate::tree::root_op;
use crate::tree::tree_infix;
use crate::tree::tree_infix_child;

verus! {

/// The operand counter of the postfix validity check, run over `s` from the
/// left: a predicate pushes one operand, an operator consumes two operands
/// and produces one, which demands that two are available.  `None` means the
/// check has failed; a failure is permanent.
pub open spec fn postfix_run<Predicate>(s: Seq<PostfixToken<Predicate>>) -> Option<int>
    decreases s.len(),
{
    if s.len() == 0 {
        Some(0int)
    } else {
        match postfix_run(s.drop_last()) {
            Option::None => Option::<int>::None,
            Option::Some(cnt) => match s.last() {
                PostfixToken::Predicate(_) => Some(cnt + 1),
                PostfixToken::Operator(_) => if cnt >= 2 {
                    Some(cnt - 1)
                } else {
                    Option::<int>::None
                },
            },
        }
    }
}

/// A postfix token sequence is valid when running it as a stack program
/// consumes every token and leaves exactly one residual operand.
pub open spec fn postfix_valid<Predicate>(s: Seq<PostfixToken<Predicate>>) -> bool {
    postfix_run(s) == Some(1int)
}

/// Once the operand counter has failed on a prefix, it fails on the whole
/// sequence.
pub proof fn lemma_postfix_run_none<Predicate>(s: Seq<PostfixToken<Predicate>>, j: int)
    requires
        0 <= j <= s.len(),
        postfix_run(s.take(j)) is None,
    ensures
        postfix_run(s) is None,
    decreases s.len() - j,
{
    if j == s.len() {
        assert(s.take(j) =~= s);
    } else {
        assert(s.take(j + 1).drop_last() =~= s.take(j));
        lemma_postfix_run_none(s, j + 1);
    }
}

/// A validated, immutable postfix expression.  The token sequence satisfies
/// [`postfix_valid`] from construction on.
#[derive(Debug, PartialEq)]
pub struct PostfixExpression<Predicate> {
    tokens: Vec<PostfixToken<Predicate>>,
}

impl<Predicate> View for PostfixExpression<Predicate> {
    type V = Seq<PostfixToken<Predicate>>;

    closed spec fn view(&self) -> Seq<PostfixToken<Predicate>> {
        self.tokens@
    }
}

impl<Predicate> PostfixExpression<Predicate> {
    /// The construction invariant: the owned token sequence is valid.
    pub open spec fn wf(self) -> bool {
        postfix_valid(self@)
    }

    /// Wraps the token sequence into an expression if it is valid, and
    /// returns `None` exactly when it is not.
    pub fn from_tokens(tokens: Vec<PostfixToken<Predicate>>) -> (result: Option<Self>)
        ensures
            result is Some <==> postfix_valid(tokens@),
            result matches Some(e) ==> e@ == tokens@ && e.wf(),
    {
        if Self::are_tokens_valid(&tokens) {
            Some(PostfixExpression { tokens })
        } else {
            None
        }
    }

    /// Wraps a token sequence that the caller has already shown to be valid,
    /// skipping the check.
    pub(crate) fn from_tokens_unchecked(tokens: Vec<PostfixToken<Predicate>>) -> (result: Self)
        requires
            postfix_valid(tokens@),
        ensures
            result@ == tokens@,
            result.wf(),
    {
        PostfixExpression { tokens }
    }

    /// The tokens of the expression, in order.
    pub fn get_tokens(&self) -> (result: &Vec<PostfixToken<Predicate>>)
        ensures
            result@ == self@,
    {
        &self.tokens
    }

    /// Evaluates the expression against `evaluator` and returns the verdict
    /// together with the collected evidence.  Already-combined truth values
    /// are examined before undecided predicates, and an operand that decides
    /// a combination short-circuits the other, so a predicate may never be
    /// decided at all; the evidence holds the reasons of the predicates
    /// decided true since the last one decided false.
    pub fn evaluate<E: PredicateEvaluator<Predicate = Predicate>>(&self, evaluator: &E) -> (result:
        (bool, Vec<E::Reason>))
        requires
            self.wf(),
        ensures
            result.0 == machine_value(self@, evaluator),
            result.1@ == machine_reasons(self@, evaluator),
    {
        let ghost s = self@;
        let mut stack: Vec<PostfixStackItem<Predicate>> = Vec::new();
        let mut reasons: Vec<E::Reason> = Vec::new();
        let n = self.tokens.len();
        let mut i: usize = 0;
        proof {
            assert(s.take(0) =~= Seq::<PostfixToken<Predicate>>::empty());
        }
        while i < n
            invariant
                n == s.len(),
                0 <= i <= n,
                self@ == s,
                postfix_valid(s),
                postfix_run(s.take(i as int)) == Some(stack@.len() as int),
                ({
                    let st = eval_run(s.take(i as int), evaluator);
                    &&& st.stack.len() == stack@.len()
                    &&& forall|j: int|
                        0 <= j < st.stack.len() ==> st.stack[j] == (#[trigger] stack@[j]).abs()
                    &&& st.reasons == reasons@
                }),
            decreases n - i,
        {
            proof {
                assert(s.take(i + 1).drop_last() =~= s.take(i as int));
                assert(s.take(i + 1).last() == s[i as int]);
            }
            match &self.tokens[i] {
                PostfixToken::Operator(op) => {
                    proof {
                        // the expression is valid, so two operands are
                        // always available here
                        if stack@.len() < 2 {
                            lemma_postfix_run_none(s, i + 1);
                        }
                    }
                    let mut second = stack.pop().unwrap();
                    let mut first = stack.pop().unwrap();
                    if matches!(first, PostfixStackItem::Predicate(_)) && matches!(
                        second,
                        PostfixStackItem::Result(_),
                    ) {
                        let undecided = first;
                        first = second;
                        second = undecided;
                    }
                    let result = match op {
                        Operator::And => first.evaluate(evaluator, &mut reasons)
                            && second.evaluate(evaluator, &mut reasons),
                        Operator::Or => first.evaluate(evaluator, &mut reasons)
                            || second.evaluate(evaluator, &mut reasons),
                    };
                    stack.push(PostfixStackItem::Result(result));
                },
                PostfixToken::Predicate(p) => {
                    stack.push(PostfixStackItem::Predicate(p));
                },
            }
            i = i + 1;
        }
        proof {
            assert(s.take(n as int) =~= s);
        }
        let top = stack.pop().unwrap();
        let result = top.evaluate(evaluator, &mut reasons);
        (result, reasons)
    }

    /// Rebuilds the infix form of the expression: the rendering of its parse
    /// tree, with parentheses only around sub-expressions whose connective
    /// binds less tightly than the one above them.  The result reads
    /// directly as the value this expression evaluates to: see
    /// [`crate::laws::lemma_to_infix_preserves_meaning`].
    #[verifier::rlimit(50)]
    pub fn to_infix(self) -> (result: InfixExpression<Predicate>)
        requires
            self.wf(),
        ensures
            result@ == tree_infix(postfix_parse(self@)),
            result.wf(),
    {
        let ghost s = self@;
        let mut toks = self.tokens;
        let mut operator_stack: Vec<Option<Operator>> = Vec::new();
        let mut output_stack: Vec<Vec<InfixToken<Predicate>>> = Vec::new();
        let n = toks.len();
        let mut i: usize = 0;
        proof {
            assert(s.take(0) =~= Seq::<PostfixToken<Predicate>>::empty());
        }
        while i < n
            invariant
                n == s.len(),
                0 <= i <= n,
                postfix_valid(s),
                i + toks@.len() == n,
                toks@ == s.skip(i as int),
                postfix_run(s.take(i as int)) == Some(output_stack@.len() as int),
                operator_stack@.len() == output_stack@.len(),
                ({
                    let trees = parse_run(s.take(i as int));
                    &&& trees.len() == output_stack@.len()
                    &&& forall|j: int|
                        0 <= j < trees.len() ==> (#[trigger] output_stack@[j])@ == tree_infix(
                            trees[j],
                        )
                    &&& forall|j: int|
                        0 <= j < trees.len() ==> #[trigger] operator_stack@[j] == root_op(trees[j])
                }),
            decreases n - i,
        {
            let ghost trees = parse_run(s.take(i as int));
            proof {
                assert(s.take(i + 1).drop_last() =~= s.take(i as int));
                assert(s.take(i + 1).last() == s[i as int]);
                assert(s.skip(i as int)[0] == s[i as int]);
                assert(s.skip(i as int).remove(0) =~= s.skip(i + 1));
            }
            let token = toks.remove(0);
            match token {
                PostfixToken::Predicate(p) => {
                    let mut single: Vec<InfixToken<Predicate>> = Vec::new();
                    single.push(InfixToken::Predicate(p));
                    proof {
                        assert(single@ =~= tree_infix(ExprTree::Leaf(p)));
                    }
                    output_stack.push(single);
                    operator_stack.push(None);
                },
                PostfixToken::Operator(op) => {
                    proof {
                        // the expression is valid, so two sub-expressions
                        // are always available here
                        if output_stack@.len() < 2 {
                            lemma_postfix_run_none(s, i + 1);
                        }
                    }
                    let ghost left_tree = trees[trees.len() - 2];
                    let ghost right_tree = trees.last();
                    let ghost joined = ExprTree::<Predicate>::Node(
                        op,
                        Box::new(left_tree),
                        Box::new(right_tree),
                    );
                    let mut second = output_stack.pop().unwrap();
                    let mut first = output_stack.pop().unwrap();
                    let second_op = operator_stack.pop().unwrap();
                    let first_op = operator_stack.pop().unwrap();
                    let rank = op.precedence();
                    let wrap_first = match first_op {
                        Option::Some(child_op) => child_op.precedence() < rank,
                        Option::None => false,
                    };
                    let wrap_second = match second_op {
                        Option::Some(child_op) => child_op.precedence() < rank,
                        Option::None => false,
                    };
                    let mut combined: Vec<InfixToken<Predicate>> = Vec::new();
                    if wrap_first {
                        combined.push(InfixToken::Parenthesis(Parenthesis::Open));
                    }
                    combined.append(&mut first);
                    if wrap_first {
                        combined.push(InfixToken::Parenthesis(Parenthesis::Close));
                    }
                    proof {
                        assert(wrap_first == needs_parens(left_tree, op));
                        assert(combined@ =~= tree_infix_child(left_tree, op));
                    }
                    combined.push(InfixToken::Operator(op));
                    if wrap_second {
                        combined.push(InfixToken::Parenthesis(Parenthesis::Open));
                    }
                    combined.append(&mut second);
                    if wrap_second {
                        combined.push(InfixToken::Parenthesis(Parenthesis::Close));
                    }
                    proof {
                        assert(wrap_second == needs_parens(right_tree, op));
                        assert(combined@ =~= tree_infix_child(left_tree, op) + seq![
                            InfixToken::<Predicate>::Operator(op),
                        ] + tree_infix_child(right_tree, op));
                        assert(combined@ == tree_infix(joined));
                    }
                    output_stack.push(combined);
                    operator_stack.push(Some(op));
                    proof {
                        assert(parse_run(s.take(i + 1)) =~= trees.drop_last().drop_last().push(
                            joined,
                        ));
                    }
                },
            }
            i = i + 1;
        }
        proof {
            assert(s.take(n as int) =~= s);
        }
        let tokens = output_stack.pop().unwrap();
        proof {
            lemma_tree_infix_valid(postfix_parse(s));
        }
        InfixExpression::from_tokens_unchecked(tokens)
    }

    /// Runs the operand-counting check of [`postfix_valid`].
    fn are_tokens_valid(tokens: &Vec<PostfixToken<Predicate>>) -> (valid: bool)
        ensures
            valid == postfix_valid(tokens@),
    {
        let ghost s = tokens@;
        let mut cnt: usize = 0;
        let n = tokens.len();
        let mut i: usize = 0;
        while i < n
            invariant
                n == s.len(),
                0 <= i <= n,
                tokens@ == s,
                cnt <= i,
                postfix_run(s.take(i as int)) == Some(cnt as int),
            decreases n - i,
        {
            proof {
                assert(s.take(i + 1).drop_last() =~= s.take(i as int));
                assert(s.take(i + 1).last() == s[i as int]);
            }
            match &tokens[i] {
                PostfixToken::Operator(_) => {
                    if cnt < 2 {
                        proof {
                            lemma_postfix_run_none(s, i + 1);
                        }
                        return false;
                    }
                    cnt = cnt - 1;
                },
                PostfixToken::Predicate(_) => {
                    cnt = cnt + 1;
                },
            }
            i = i + 1;
        }
        proof {
            assert(s.take(n as int) =~= s);
        }
        cnt == 1
    }
}

} // verus!
