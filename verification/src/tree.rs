//! The structural model of an expression: a binary tree of predicates and
//! connectives.  A valid postfix sequence parses into exactly one tree, and
//! the infix reconstruction renders a tree back into tokens, inserting
//! parentheses only where precedence demands them.

use vstd::prelude::*;

use crate::evaluator::PredicateEvaluator;
use crate::infix::InfixState;
use crate::infix::infix_init;
use crate::infix::infix_run;
use crate::infix::infix_step;
use crate::infix::infix_valid;
use crate::tokens::InfixToken;
use crate::tokens::Operator;
use crate::tokens::op_apply;
use crate::tokens::Parenthesis;
use crate::tokens::PostfixToken;
use crate::tokens::spec_precedence;

verus! {

/// An expression: a single predicate, or two expressions joined by a
/// connective.
pub enum ExprTree<Predicate> {
    Leaf(Predicate),
    Node(Operator, Box<ExprTree<Predicate>>, Box<ExprTree<Predicate>>),
}

/// The connective at the root of the tree, if any.
pub open spec fn root_op<Predicate>(t: ExprTree<Predicate>) -> Option<Operator> {
    match t {
        ExprTree::Leaf(_) => Option::<Operator>::None,
        ExprTree::Node(op, _, _) => Some(op),
    }
}

/// The stack of parse trees after reading `s` from the left: a predicate
/// pushes a leaf, an operator joins the two topmost trees (and is skipped on
/// a malformed sequence that leaves it fewer than two).
pub open spec fn parse_run<Predicate>(s: Seq<PostfixToken<Predicate>>) -> Seq<
    ExprTree<Predicate>,
>
    decreases s.len(),
{
    if s.len() == 0 {
        Seq::<ExprTree<Predicate>>::empty()
    } else {
        let stack = parse_run(s.drop_last());
        match s.last() {
            PostfixToken::Predicate(p) => stack.push(ExprTree::Leaf(p)),
            PostfixToken::Operator(op) => if stack.len() >= 2 {
                stack.drop_last().drop_last().push(
                    ExprTree::Node(
                        op,
                        Box::new(stack[stack.len() - 2]),
                        Box::new(stack.last()),
                    ),
                )
            } else {
                stack
            },
        }
    }
}

/// The single tree that a valid postfix sequence parses into.
pub open spec fn postfix_parse<Predicate>(s: Seq<PostfixToken<Predicate>>) -> ExprTree<
    Predicate,
> {
    parse_run(s).last()
}

/// The truth value of a tree under `evaluator`: each predicate is decided by
/// the evaluator, each connective combines its children.
pub open spec fn tree_eval<Predicate, E: PredicateEvaluator<Predicate = Predicate>>(
    t: ExprTree<Predicate>,
    evaluator: &E,
) -> bool
    decreases t,
{
    match t {
        ExprTree::Leaf(p) => evaluator.decide_spec(&p),
        ExprTree::Node(op, left, right) => op_apply(
            op,
            tree_eval(*left, evaluator),
            tree_eval(*right, evaluator),
        ),
    }
}

/// Whether a child with root `child_op` must be parenthesized under a parent
/// connective `parent`: only when it binds strictly less tightly.
pub open spec fn needs_parens<Predicate>(child: ExprTree<Predicate>, parent: Operator) -> bool {
    match root_op(child) {
        Option::None => false,
        Option::Some(child_op) => spec_precedence(child_op) < spec_precedence(parent),
    }
}

/// The infix rendering of a tree, parenthesizing children only where
/// [`needs_parens`] demands it.
pub open spec fn tree_infix<Predicate>(t: ExprTree<Predicate>) -> Seq<InfixToken<Predicate>>
    decreases t, 0int,
{
    match t {
        ExprTree::Leaf(p) => seq![InfixToken::Predicate(p)],
        ExprTree::Node(op, left, right) => tree_infix_child(*left, op) + seq![
            InfixToken::<Predicate>::Operator(op),
        ] + tree_infix_child(*right, op),
    }
}

/// The rendering of one child under a parent connective `parent`: the
/// child's own rendering, wrapped in parentheses when required.
pub open spec fn tree_infix_child<Predicate>(child: ExprTree<Predicate>, parent: Operator) -> Seq<
    InfixToken<Predicate>,
>
    decreases child, 1int,
{
    if needs_parens(child, parent) {
        seq![InfixToken::<Predicate>::Parenthesis(Parenthesis::Open)] + tree_infix(child) + seq![
            InfixToken::<Predicate>::Parenthesis(Parenthesis::Close),
        ]
    } else {
        tree_infix(child)
    }
}

/// The number of connectives a rendering leaves unparenthesized at its top
/// grouping level.
pub open spec fn top_ops<Predicate>(t: ExprTree<Predicate>) -> int
    decreases t, 0int,
{
    match t {
        ExprTree::Leaf(_) => 0,
        ExprTree::Node(op, left, right) => top_ops_child(*left, op) + 1 + top_ops_child(
            *right,
            op,
        ),
    }
}

/// The connectives one child contributes to its parent's top grouping
/// level: none when it is parenthesized away.
pub open spec fn top_ops_child<Predicate>(child: ExprTree<Predicate>, parent: Operator) -> int
    decreases child, 1int,
{
    if needs_parens(child, parent) {
        0
    } else {
        top_ops(child)
    }
}

/// The validity-check state after running `s` from a given starting state
/// instead of the initial one.
pub open spec fn infix_run_from<Predicate>(st: InfixState, s: Seq<InfixToken<Predicate>>) -> Option<
    InfixState,
>
    decreases s.len(),
{
    if s.len() == 0 {
        Some(st)
    } else {
        match infix_run_from(st, s.drop_last()) {
            Option::None => Option::<InfixState>::None,
            Option::Some(mid) => infix_step(mid, s.last()),
        }
    }
}

/// Running the check over a concatenation runs it over the parts in turn.
pub proof fn lemma_run_from_concat<Predicate>(
    st: InfixState,
    a: Seq<InfixToken<Predicate>>,
    b: Seq<InfixToken<Predicate>>,
)
    ensures
        infix_run_from(st, a + b) == (match infix_run_from(st, a) {
            Option::None => Option::<InfixState>::None,
            Option::Some(mid) => infix_run_from(mid, b),
        }),
    decreases b.len(),
{
    if b.len() == 0 {
        assert(a + b =~= a);
    } else {
        assert((a + b).drop_last() =~= a + b.drop_last());
        assert((a + b).last() == b.last());
        lemma_run_from_concat(st, a, b.drop_last());
    }
}

/// The check from the initial state is the check of [`infix_run`].
pub proof fn lemma_run_from_init<Predicate>(s: Seq<InfixToken<Predicate>>)
    ensures
        infix_run(s) == infix_run_from(infix_init(), s),
    decreases s.len(),
{
    if s.len() > 0 {
        lemma_run_from_init(s.drop_last());
    }
}

/// Running the check over a single token is one step.
pub proof fn lemma_run_from_one<Predicate>(st: InfixState, t: InfixToken<Predicate>)
    ensures
        infix_run_from(st, seq![t]) == infix_step(st, t),
{
    let s = seq![t];
    assert(s.drop_last() =~= Seq::<InfixToken<Predicate>>::empty());
    assert(infix_run_from(st, Seq::<InfixToken<Predicate>>::empty()) == Some(st));
    assert(s.last() == t);
}

/// A rendering never leaves a negative number of connectives at its top
/// grouping level.
pub proof fn lemma_top_ops_nonneg<Predicate>(t: ExprTree<Predicate>)
    ensures
        top_ops(t) >= 0,
    decreases t,
{
    match t {
        ExprTree::Leaf(_) => {},
        ExprTree::Node(op, left, right) => {
            lemma_top_ops_nonneg(*left);
            lemma_top_ops_nonneg(*right);
        },
    }
}

/// What the validity check makes of a rendered tree, from any state that
/// expects a predicate: the rendering behaves as one more operand joined to
/// the current level by its unparenthesized connectives.
pub proof fn lemma_render_run<Predicate>(st: InfixState, t: ExprTree<Predicate>)
    requires
        st.expected,
        st.levels.len() >= 1,
        st.cnt >= 0,
    ensures
        infix_run_from(st, tree_infix(t)) == Some(
            InfixState {
                levels: st.levels.update(st.levels.len() - 1, st.levels.last() + top_ops(t)),
                cnt: st.cnt + top_ops(t) + 1,
                expected: false,
            },
        ),
    decreases t, 0int,
{
    match t {
        ExprTree::Leaf(p) => {
            lemma_run_from_one(st, InfixToken::<Predicate>::Predicate(p));
            assert(st.levels.update(st.levels.len() - 1, st.levels.last() + 0) =~= st.levels);
        },
        ExprTree::Node(op, left, right) => {
            let a = tree_infix_child(*left, op);
            let m = seq![InfixToken::<Predicate>::Operator(op)];
            let b = tree_infix_child(*right, op);
            assert(tree_infix(t) == (a + m) + b);
            lemma_render_run_child(st, *left, op);
            let st1 = InfixState {
                levels: st.levels.update(
                    st.levels.len() - 1,
                    st.levels.last() + top_ops_child(*left, op),
                ),
                cnt: st.cnt + top_ops_child(*left, op) + 1,
                expected: false,
            };
            lemma_run_from_one(st1, InfixToken::<Predicate>::Operator(op));
            let st2 = InfixState {
                levels: st.levels.update(
                    st.levels.len() - 1,
                    st.levels.last() + top_ops_child(*left, op) + 1,
                ),
                cnt: st.cnt + top_ops_child(*left, op) + 1,
                expected: true,
            };
            assert(st1.levels.update(st1.levels.len() - 1, st1.levels.last() + 1)
                =~= st2.levels);
            assert(infix_run_from(st1, m) == Some(st2));
            lemma_run_from_concat(st, a, m);
            assert(infix_run_from(st, a + m) == Some(st2));
            lemma_top_ops_nonneg(*left);
            lemma_render_run_child(st2, *right, op);
            lemma_run_from_concat(st, a + m, b);
            assert(st2.levels.update(
                st2.levels.len() - 1,
                st2.levels.last() + top_ops_child(*right, op),
            ) =~= st.levels.update(st.levels.len() - 1, st.levels.last() + top_ops(t)));
        },
    }
}

/// What the validity check makes of one rendered child, parenthesized or
/// not, from any state that expects a predicate.
pub proof fn lemma_render_run_child<Predicate>(
    st: InfixState,
    child: ExprTree<Predicate>,
    parent: Operator,
)
    requires
        st.expected,
        st.levels.len() >= 1,
        st.cnt >= 0,
    ensures
        infix_run_from(st, tree_infix_child(child, parent)) == Some(
            InfixState {
                levels: st.levels.update(
                    st.levels.len() - 1,
                    st.levels.last() + top_ops_child(child, parent),
                ),
                cnt: st.cnt + top_ops_child(child, parent) + 1,
                expected: false,
            },
        ),
    decreases child, 1int,
{
    if needs_parens(child, parent) {
        let o = seq![InfixToken::<Predicate>::Parenthesis(Parenthesis::Open)];
        let c = seq![InfixToken::<Predicate>::Parenthesis(Parenthesis::Close)];
        let body = tree_infix(child);
        assert(tree_infix_child(child, parent) == (o + body) + c);
        assert(o.drop_last() =~= Seq::<InfixToken<Predicate>>::empty());
        let st_open = InfixState { levels: st.levels.push(0), cnt: st.cnt, expected: st.expected };
        lemma_run_from_one(st, InfixToken::<Predicate>::Parenthesis(Parenthesis::Open));
        assert(infix_run_from(st, o) == Some(st_open));
        lemma_render_run(st_open, child);
        let st_inner = InfixState {
            levels: st_open.levels.update(st_open.levels.len() - 1, top_ops(child)),
            cnt: st.cnt + top_ops(child) + 1,
            expected: false,
        };
        assert(st_open.levels.update(st_open.levels.len() - 1, 0 + top_ops(child))
            =~= st_inner.levels);
        lemma_run_from_concat(st, o, body);
        assert(infix_run_from(st, o + body) == Some(st_inner));
        lemma_top_ops_nonneg(child);
        assert(st_inner.levels =~= st.levels.push(top_ops(child)));
        assert(st_inner.levels.last() == top_ops(child));
        assert(infix_step(st_inner, InfixToken::<Predicate>::Parenthesis(Parenthesis::Close))
            == Some(
            InfixState {
                levels: st_inner.levels.drop_last(),
                cnt: st_inner.cnt - st_inner.levels.last(),
                expected: false,
            },
        ));
        lemma_run_from_one(st_inner, InfixToken::<Predicate>::Parenthesis(Parenthesis::Close));
        lemma_run_from_concat(st, o + body, c);
        assert(st_inner.levels.drop_last() =~= st.levels);
        assert(st.levels.update(st.levels.len() - 1, st.levels.last() + 0) =~= st.levels);
    } else {
        lemma_render_run(st, child);
    }
}

/// The rendering of any tree is a valid infix token sequence.
pub proof fn lemma_tree_infix_valid<Predicate>(t: ExprTree<Predicate>)
    ensures
        infix_valid(tree_infix(t)),
{
    lemma_run_from_init(tree_infix(t));
    lemma_render_run(infix_init(), t);
    lemma_top_ops_nonneg(t);
    assert(infix_init().levels.update(0, 0 + top_ops(t)) =~= seq![top_ops(t)]);
}

} // verus!
