//! The round-trip laws: converting a postfix expression to infix and back
//! preserves its truth value under every evaluator.  The proof runs the
//! shunting-yard conversion over the rendering of a parse tree, one subtree
//! at a time.

use vstd::prelude::*;

use crate::counts::lemma_infix_run_shape;
use crate::counts::lemma_infix_valid_counts;
use crate::counts::lemma_infix_valid_op_position;
use crate::counts::lemma_infix_valid_prefix_some;
use crate::counts::lemma_seq_sum_lower;
use crate::counts::lemma_seq_sum_update_last;
use crate::counts::seq_sum;
use crate::infix::InfixStackItem;
use crate::infix::infix_run;
use crate::infix::infix_valid;
use crate::infix::shunting_yard;
use crate::postfix::postfix_valid;
use crate::infix::sy_finish;
use crate::infix::sy_pop_ge;
use crate::infix::sy_pop_to_marker;
use crate::infix::sy_run;
use crate::infix::sy_step;
use crate::postfix::postfix_run;
use crate::evaluator::PredicateEvaluator;
use crate::tokens::InfixToken;
use crate::tokens::Operator;
use crate::tokens::Parenthesis;
use crate::tokens::PostfixToken;
use crate::tokens::op_apply;
use crate::tokens::spec_precedence;
use crate::tree::ExprTree;
use crate::tree::needs_parens;
use crate::tree::parse_run;
use crate::tree::root_op;
use crate::tree::tree_eval;
use crate::tree::tree_infix;
use crate::tree::tree_infix_child;

verus! {

/// The shunting-yard conversion run over `s` from a given output and stack
/// instead of the empty ones.
pub open spec fn sy_run_from<Predicate>(
    out: Seq<PostfixToken<Predicate>>,
    stack: Seq<InfixStackItem>,
    s: Seq<InfixToken<Predicate>>,
) -> (Seq<PostfixToken<Predicate>>, Seq<InfixStackItem>)
    decreases s.len(),
{
    if s.len() == 0 {
        (out, stack)
    } else {
        let prev = sy_run_from(out, stack, s.drop_last());
        sy_step(prev.0, prev.1, s.last())
    }
}

/// The conversion from the empty state is the conversion of [`sy_run`].
pub proof fn lemma_sy_run_is_from<Predicate>(s: Seq<InfixToken<Predicate>>)
    ensures
        sy_run(s) == sy_run_from(
            Seq::<PostfixToken<Predicate>>::empty(),
            Seq::<InfixStackItem>::empty(),
            s,
        ),
    decreases s.len(),
{
    if s.len() > 0 {
        lemma_sy_run_is_from(s.drop_last());
    }
}

/// Running the conversion over a concatenation runs it over the parts in
/// turn.
pub proof fn lemma_sy_run_from_concat<Predicate>(
    out: Seq<PostfixToken<Predicate>>,
    stack: Seq<InfixStackItem>,
    a: Seq<InfixToken<Predicate>>,
    b: Seq<InfixToken<Predicate>>,
)
    ensures
        sy_run_from(out, stack, a + b) == sy_run_from(
            sy_run_from(out, stack, a).0,
            sy_run_from(out, stack, a).1,
            b,
        ),
    decreases b.len(),
{
    if b.len() == 0 {
        assert(a + b =~= a);
    } else {
        assert((a + b).drop_last() =~= a + b.drop_last());
        assert((a + b).last() == b.last());
        lemma_sy_run_from_concat(out, stack, a, b.drop_last());
    }
}

/// Running the conversion over a single token is one step.
pub proof fn lemma_sy_run_from_one<Predicate>(
    out: Seq<PostfixToken<Predicate>>,
    stack: Seq<InfixStackItem>,
    t: InfixToken<Predicate>,
)
    ensures
        sy_run_from(out, stack, seq![t]) == sy_step(out, stack, t),
{
    let s = seq![t];
    assert(s.drop_last() =~= Seq::<InfixToken<Predicate>>::empty());
    assert(sy_run_from(out, stack, Seq::<InfixToken<Predicate>>::empty()) == (out, stack));
    assert(s.last() == t);
}

/// Whether a stack entry is an operator that binds at least as tightly as
/// `rank`.
pub open spec fn is_op_ge(item: InfixStackItem, rank: int) -> bool {
    match item {
        InfixStackItem::Operator(op) => spec_precedence(op) >= rank,
        InfixStackItem::Parenthesis(_) => false,
    }
}

/// Whether the top of the stack would stop a pop of operators binding at
/// least as tightly as `rank`: an emptied stack, a marker, or an operator
/// that binds less tightly.
pub open spec fn sy_top_below(stack: Seq<InfixStackItem>, rank: int) -> bool {
    stack.len() == 0 || !is_op_ge(stack.last(), rank)
}

/// The postfix tokens that popping a suffix of pending operators emits,
/// topmost first.
pub open spec fn emit_ops<Predicate>(pend: Seq<InfixStackItem>) -> Seq<PostfixToken<Predicate>>
    decreases pend.len(),
{
    if pend.len() == 0 {
        Seq::<PostfixToken<Predicate>>::empty()
    } else {
        match pend.last() {
            InfixStackItem::Operator(op) => seq![PostfixToken::<Predicate>::Operator(op)]
                + emit_ops(pend.drop_last()),
            InfixStackItem::Parenthesis(_) => Seq::<PostfixToken<Predicate>>::empty(),
        }
    }
}

/// Popping operators of at least `rank` from a stack that carries a suffix
/// of such operators emits exactly that suffix, topmost first, and stops
/// where the suffix ends.
pub proof fn lemma_sy_pop_ge_suffix<Predicate>(
    out: Seq<PostfixToken<Predicate>>,
    stack: Seq<InfixStackItem>,
    pend: Seq<InfixStackItem>,
    rank: int,
)
    requires
        forall|j: int| 0 <= j < pend.len() ==> is_op_ge(#[trigger] pend[j], rank),
        sy_top_below(stack, rank),
    ensures
        sy_pop_ge(out, stack + pend, rank) == (out + emit_ops::<Predicate>(pend), stack),
    decreases pend.len(),
{
    if pend.len() == 0 {
        assert(stack + pend =~= stack);
        assert(out + emit_ops::<Predicate>(pend) =~= out);
    } else {
        let op = pend.last()->Operator_0;
        assert((stack + pend).last() == pend.last());
        assert((stack + pend).drop_last() =~= stack + pend.drop_last());
        lemma_sy_pop_ge_suffix(
            out.push(PostfixToken::<Predicate>::Operator(op)),
            stack,
            pend.drop_last(),
            rank,
        );
        assert(out.push(PostfixToken::<Predicate>::Operator(op)) + emit_ops::<Predicate>(
            pend.drop_last(),
        ) =~= out + emit_ops::<Predicate>(pend));
    }
}

/// Popping down to a marker over a suffix of pending operators emits the
/// suffix, topmost first, and then discards the marker.
pub proof fn lemma_sy_pop_to_marker_suffix<Predicate>(
    out: Seq<PostfixToken<Predicate>>,
    stack: Seq<InfixStackItem>,
    pend: Seq<InfixStackItem>,
)
    requires
        forall|j: int| 0 <= j < pend.len() ==> is_op_ge(#[trigger] pend[j], 1),
        stack.len() >= 1,
        stack.last() is Parenthesis,
    ensures
        sy_pop_to_marker(out, stack + pend) == (
            out + emit_ops::<Predicate>(pend),
            stack.drop_last(),
        ),
    decreases pend.len(),
{
    if pend.len() == 0 {
        assert(stack + pend =~= stack);
        assert(out + emit_ops::<Predicate>(pend) =~= out);
    } else {
        let op = pend.last()->Operator_0;
        assert((stack + pend).last() == pend.last());
        assert((stack + pend).drop_last() =~= stack + pend.drop_last());
        lemma_sy_pop_to_marker_suffix(
            out.push(PostfixToken::<Predicate>::Operator(op)),
            stack,
            pend.drop_last(),
        );
        assert(out.push(PostfixToken::<Predicate>::Operator(op)) + emit_ops::<Predicate>(
            pend.drop_last(),
        ) =~= out + emit_ops::<Predicate>(pend));
    }
}

/// Finishing the conversion over a stack of operators alone emits them all,
/// topmost first.
pub proof fn lemma_sy_finish_ops<Predicate>(
    out: Seq<PostfixToken<Predicate>>,
    pend: Seq<InfixStackItem>,
)
    requires
        forall|j: int| 0 <= j < pend.len() ==> is_op_ge(#[trigger] pend[j], 1),
    ensures
        sy_finish(out, pend) == out + emit_ops::<Predicate>(pend),
    decreases pend.len(),
{
    if pend.len() == 0 {
        assert(out + emit_ops::<Predicate>(pend) =~= out);
    } else {
        let op = pend.last()->Operator_0;
        lemma_sy_finish_ops(out.push(PostfixToken::<Predicate>::Operator(op)), pend.drop_last());
        assert(out.push(PostfixToken::<Predicate>::Operator(op)) + emit_ops::<Predicate>(
            pend.drop_last(),
        ) =~= out + emit_ops::<Predicate>(pend));
    }
}

/// The operand counter of the validity check run from a given count instead
/// of zero.
pub open spec fn postfix_run_from<Predicate>(cnt: int, s: Seq<PostfixToken<Predicate>>) -> Option<
    int,
>
    decreases s.len(),
{
    if s.len() == 0 {
        Some(cnt)
    } else {
        match postfix_run_from(cnt, s.drop_last()) {
            Option::None => Option::<int>::None,
            Option::Some(mid) => match s.last() {
                PostfixToken::Predicate(_) => Some(mid + 1),
                PostfixToken::Operator(_) => if mid >= 2 {
                    Some(mid - 1)
                } else {
                    Option::<int>::None
                },
            },
        }
    }
}

/// The counter from zero is the counter of [`postfix_run`].
pub proof fn lemma_postfix_run_is_from<Predicate>(s: Seq<PostfixToken<Predicate>>)
    ensures
        postfix_run(s) == postfix_run_from(0, s),
    decreases s.len(),
{
    if s.len() > 0 {
        lemma_postfix_run_is_from(s.drop_last());
    }
}

/// Running the counter over a concatenation runs it over the parts in turn.
pub proof fn lemma_postfix_run_from_concat<Predicate>(
    cnt: int,
    a: Seq<PostfixToken<Predicate>>,
    b: Seq<PostfixToken<Predicate>>,
)
    ensures
        postfix_run_from(cnt, a + b) == (match postfix_run_from(cnt, a) {
            Option::None => Option::<int>::None,
            Option::Some(mid) => postfix_run_from(mid, b),
        }),
    decreases b.len(),
{
    if b.len() == 0 {
        assert(a + b =~= a);
    } else {
        assert((a + b).drop_last() =~= a + b.drop_last());
        assert((a + b).last() == b.last());
        lemma_postfix_run_from_concat(cnt, a, b.drop_last());
    }
}

/// The parse-tree stack run from a given stack instead of the empty one.
pub open spec fn parse_run_from<Predicate>(
    trees: Seq<ExprTree<Predicate>>,
    s: Seq<PostfixToken<Predicate>>,
) -> Seq<ExprTree<Predicate>>
    decreases s.len(),
{
    if s.len() == 0 {
        trees
    } else {
        let stack = parse_run_from(trees, s.drop_last());
        match s.last() {
            PostfixToken::Predicate(p) => stack.push(ExprTree::Leaf(p)),
            PostfixToken::Operator(op) => if stack.len() >= 2 {
                stack.drop_last().drop_last().push(
                    ExprTree::Node(op, Box::new(stack[stack.len() - 2]), Box::new(stack.last())),
                )
            } else {
                stack
            },
        }
    }
}

/// Whether every chain of one connective leans left: no node has a child on
/// its right with the same connective at its root.
pub open spec fn left_normal<Predicate>(t: ExprTree<Predicate>) -> bool
    decreases t,
{
    match t {
        ExprTree::Leaf(_) => true,
        ExprTree::Node(op, left, right) => left_normal(*left) && left_normal(*right) && root_op(
            *right,
        ) != Some(op),
    }
}

/// Joins `a` and `b` under `op`, rotating `b`'s own `op`-chain so that the
/// result leans left.
pub open spec fn graft<Predicate>(
    op: Operator,
    a: ExprTree<Predicate>,
    b: ExprTree<Predicate>,
) -> ExprTree<Predicate>
    decreases b,
{
    match b {
        ExprTree::Node(inner, left, right) => if inner == op {
            ExprTree::Node(op, Box::new(graft(op, a, *left)), right)
        } else {
            ExprTree::Node(op, Box::new(a), Box::new(b))
        },
        ExprTree::Leaf(_) => ExprTree::Node(op, Box::new(a), Box::new(b)),
    }
}

/// The left-leaning form of a tree: every chain of one connective is rotated
/// to lean left.
pub open spec fn left_normalize<Predicate>(t: ExprTree<Predicate>) -> ExprTree<Predicate>
    decreases t,
{
    match t {
        ExprTree::Leaf(_) => t,
        ExprTree::Node(op, left, right) => graft(op, left_normalize(*left), left_normalize(*right)),
    }
}

/// Grafting keeps the connective at the root.
pub proof fn lemma_graft_root<Predicate>(
    op: Operator,
    a: ExprTree<Predicate>,
    b: ExprTree<Predicate>,
)
    ensures
        root_op(graft(op, a, b)) == Some(op),
{
}

/// Grafting two left-leaning trees leans left.
pub proof fn lemma_graft_normal<Predicate>(
    op: Operator,
    a: ExprTree<Predicate>,
    b: ExprTree<Predicate>,
)
    requires
        left_normal(a),
        left_normal(b),
    ensures
        left_normal(graft(op, a, b)),
    decreases b,
{
    match b {
        ExprTree::Node(inner, left, right) => {
            if inner == op {
                lemma_graft_normal(op, a, *left);
            }
        },
        ExprTree::Leaf(_) => {},
    }
}

/// The left-leaning form of any tree leans left.
pub proof fn lemma_normalize_normal<Predicate>(t: ExprTree<Predicate>)
    ensures
        left_normal(left_normalize(t)),
    decreases t,
{
    match t {
        ExprTree::Leaf(_) => {},
        ExprTree::Node(op, left, right) => {
            lemma_normalize_normal(*left);
            lemma_normalize_normal(*right);
            lemma_graft_normal(op, left_normalize(*left), left_normalize(*right));
        },
    }
}

/// Grafting combines the truth values of its parts: rotating a chain of one
/// connective does not change its value.
pub proof fn lemma_graft_eval<Predicate, E: PredicateEvaluator<Predicate = Predicate>>(
    op: Operator,
    a: ExprTree<Predicate>,
    b: ExprTree<Predicate>,
    evaluator: &E,
)
    ensures
        tree_eval(graft(op, a, b), evaluator) == op_apply(
            op,
            tree_eval(a, evaluator),
            tree_eval(b, evaluator),
        ),
    decreases b,
{
    match b {
        ExprTree::Node(inner, left, right) => {
            if inner == op {
                lemma_graft_eval(op, a, *left, evaluator);
            }
        },
        ExprTree::Leaf(_) => {},
    }
}

/// The left-leaning form of a tree has the tree's truth value.
pub proof fn lemma_normalize_eval<Predicate, E: PredicateEvaluator<Predicate = Predicate>>(
    t: ExprTree<Predicate>,
    evaluator: &E,
)
    ensures
        tree_eval(left_normalize(t), evaluator) == tree_eval(t, evaluator),
    decreases t,
{
    match t {
        ExprTree::Leaf(_) => {},
        ExprTree::Node(op, left, right) => {
            lemma_normalize_eval(*left, evaluator);
            lemma_normalize_eval(*right, evaluator);
            lemma_graft_eval(op, left_normalize(*left), left_normalize(*right), evaluator);
        },
    }
}

/// Grafting renders as the ungrafted node: a chain of one connective reads
/// the same however it leans.
pub proof fn lemma_graft_infix<Predicate>(
    op: Operator,
    a: ExprTree<Predicate>,
    b: ExprTree<Predicate>,
)
    ensures
        tree_infix(graft(op, a, b)) == tree_infix(ExprTree::Node(op, Box::new(a), Box::new(b))),
    decreases b,
{
    match b {
        ExprTree::Node(inner, left, right) => {
            if inner == op {
                let g = graft(op, a, *left);
                let mid = seq![InfixToken::<Predicate>::Operator(op)];
                lemma_graft_infix(op, a, *left);
                lemma_graft_root(op, a, *left);
                assert(graft(op, a, b) == ExprTree::<Predicate>::Node(op, Box::new(g), right));
                assert(tree_infix(graft(op, a, b)) == tree_infix_child(g, op) + mid
                    + tree_infix_child(*right, op));
                assert(!needs_parens(g, op));
                assert(tree_infix_child(g, op) == tree_infix(g));
                assert(tree_infix(ExprTree::<Predicate>::Node(op, Box::new(a), left)) ==
                    tree_infix_child(a, op) + mid + tree_infix_child(*left, op));
                assert(tree_infix(g) == tree_infix_child(a, op) + mid + tree_infix_child(
                    *left,
                    op,
                ));
                assert(!needs_parens(b, op));
                assert(tree_infix_child(b, op) == tree_infix(b));
                assert(tree_infix(b) == tree_infix_child(*left, op) + mid + tree_infix_child(
                    *right,
                    op,
                ));
                assert(tree_infix(ExprTree::<Predicate>::Node(op, Box::new(a), Box::new(b))) ==
                    tree_infix_child(a, op) + mid + tree_infix_child(b, op));
                assert(tree_infix(graft(op, a, b)) =~= tree_infix(
                    ExprTree::<Predicate>::Node(op, Box::new(a), Box::new(b)),
                ));
            }
        },
        ExprTree::Leaf(_) => {},
    }
}

/// The left-leaning form keeps the connective at the root.
pub proof fn lemma_normalize_root<Predicate>(t: ExprTree<Predicate>)
    ensures
        root_op(left_normalize(t)) == root_op(t),
{
    match t {
        ExprTree::Leaf(_) => {},
        ExprTree::Node(op, left, right) => {
            lemma_graft_root(op, left_normalize(*left), left_normalize(*right));
        },
    }
}

/// The left-leaning form of a tree renders as the tree itself.
pub proof fn lemma_normalize_infix<Predicate>(t: ExprTree<Predicate>)
    ensures
        tree_infix(left_normalize(t)) == tree_infix(t),
    decreases t,
{
    match t {
        ExprTree::Leaf(_) => {},
        ExprTree::Node(op, left, right) => {
            lemma_normalize_infix(*left);
            lemma_normalize_infix(*right);
            lemma_normalize_root(*left);
            lemma_normalize_root(*right);
            lemma_graft_infix(op, left_normalize(*left), left_normalize(*right));
            assert(tree_infix_child(left_normalize(*left), op) == tree_infix_child(*left, op));
            assert(tree_infix_child(left_normalize(*right), op) == tree_infix_child(*right, op));
        },
    }
}

/// Running the counter over a single token is one step.
pub proof fn lemma_postfix_run_from_one<Predicate>(cnt: int, t: PostfixToken<Predicate>)
    ensures
        postfix_run_from(cnt, seq![t]) == (match t {
            PostfixToken::Predicate(_) => Some(cnt + 1),
            PostfixToken::Operator(_) => if cnt >= 2 {
                Some(cnt - 1)
            } else {
                Option::<int>::None
            },
        }),
{
    let s = seq![t];
    assert(s.drop_last() =~= Seq::<PostfixToken<Predicate>>::empty());
    assert(postfix_run_from(cnt, Seq::<PostfixToken<Predicate>>::empty()) == Some(cnt));
    assert(s.last() == t);
}

/// Running the parse over a single token is one step.
pub proof fn lemma_parse_run_from_one<Predicate>(
    trees: Seq<ExprTree<Predicate>>,
    t: PostfixToken<Predicate>,
)
    ensures
        parse_run_from(trees, seq![t]) == (match t {
            PostfixToken::Predicate(p) => trees.push(ExprTree::Leaf(p)),
            PostfixToken::Operator(op) => if trees.len() >= 2 {
                trees.drop_last().drop_last().push(
                    ExprTree::Node(op, Box::new(trees[trees.len() - 2]), Box::new(trees.last())),
                )
            } else {
                trees
            },
        }),
{
    let s = seq![t];
    assert(s.drop_last() =~= Seq::<PostfixToken<Predicate>>::empty());
    assert(parse_run_from(trees, Seq::<PostfixToken<Predicate>>::empty()) == trees);
    assert(s.last() == t);
}

/// The operators that consuming a rendered tree leaves pending on the
/// conversion stack, bottom first: its root, and below an `Or` root the
/// connective of the rightmost chain element when that element is an `And`
/// chain.
pub open spec fn pending<Predicate>(t: ExprTree<Predicate>) -> Seq<InfixStackItem> {
    match t {
        ExprTree::Leaf(_) => Seq::<InfixStackItem>::empty(),
        ExprTree::Node(Operator::And, _, _) => seq![InfixStackItem::Operator(Operator::And)],
        ExprTree::Node(Operator::Or, _, right) => seq![InfixStackItem::Operator(Operator::Or)]
            + pending_tail(*right),
    }
}

/// The extra pending connective that the rightmost element of an `Or` chain
/// contributes.
pub open spec fn pending_tail<Predicate>(t: ExprTree<Predicate>) -> Seq<InfixStackItem> {
    match t {
        ExprTree::Node(Operator::And, _, _) => seq![InfixStackItem::Operator(Operator::And)],
        _ => Seq::<InfixStackItem>::empty(),
    }
}

/// The weakest precedence among a rendering's pending operators: an `And`
/// root leaves only `And` pending, everything else at least `Or`.
pub open spec fn pending_rank<Predicate>(t: ExprTree<Predicate>) -> int {
    match root_op(t) {
        Option::Some(Operator::And) => 2,
        _ => 1,
    }
}

/// The operators a rendered child leaves pending: none when it is
/// parenthesized away.
pub open spec fn pending_child<Predicate>(child: ExprTree<Predicate>, parent: Operator) -> Seq<
    InfixStackItem,
> {
    if needs_parens(child, parent) {
        Seq::<InfixStackItem>::empty()
    } else {
        pending(child)
    }
}

/// The parse from the empty stack is the parse of [`parse_run`].
pub proof fn lemma_parse_run_is_from<Predicate>(s: Seq<PostfixToken<Predicate>>)
    ensures
        parse_run(s) == parse_run_from(Seq::<ExprTree<Predicate>>::empty(), s),
    decreases s.len(),
{
    if s.len() > 0 {
        lemma_parse_run_is_from(s.drop_last());
    }
}

/// Running the parse over a concatenation runs it over the parts in turn.
pub proof fn lemma_parse_run_from_concat<Predicate>(
    trees: Seq<ExprTree<Predicate>>,
    a: Seq<PostfixToken<Predicate>>,
    b: Seq<PostfixToken<Predicate>>,
)
    ensures
        parse_run_from(trees, a + b) == parse_run_from(parse_run_from(trees, a), b),
    decreases b.len(),
{
    if b.len() == 0 {
        assert(a + b =~= a);
    } else {
        assert((a + b).drop_last() =~= a + b.drop_last());
        assert((a + b).last() == b.last());
        lemma_parse_run_from_concat(trees, a, b.drop_last());
    }
}

/// Whether the conversion stack is ready for an unparenthesized rendering
/// of `t`: nothing on top that the rendering's own connectives would pop.
pub open spec fn sy_entry_ok<Predicate>(stack: Seq<InfixStackItem>, t: ExprTree<Predicate>) -> bool {
    match root_op(t) {
        Option::None => true,
        Option::Some(op) => sy_top_below(stack, spec_precedence(op)),
    }
}

/// What the shunting-yard conversion makes of one rendered left-leaning
/// tree: it appends a token sequence to the output which, once the pending
/// operators follow, is one complete postfix operand — it parses as a single
/// tree with the rendered tree's truth value.
#[verifier::rlimit(100)]
pub proof fn lemma_sy_render_tree<Predicate, E: PredicateEvaluator<Predicate = Predicate>>(
    out: Seq<PostfixToken<Predicate>>,
    st: Seq<InfixStackItem>,
    t: ExprTree<Predicate>,
    trees: Seq<ExprTree<Predicate>>,
    evaluator: &E,
) -> (result: (Seq<PostfixToken<Predicate>>, ExprTree<Predicate>))
    requires
        left_normal(t),
        sy_entry_ok(st, t),
    ensures
        sy_run_from(out, st, tree_infix(t)) == (out + result.0, st + pending(t)),
        postfix_run_from(trees.len() as int, result.0 + emit_ops::<Predicate>(pending(t)))
            == Some(trees.len() as int + 1),
        parse_run_from(trees, result.0 + emit_ops::<Predicate>(pending(t))) == trees.push(
            result.1,
        ),
        tree_eval(result.1, evaluator) == tree_eval(t, evaluator),
        forall|j: int|
            0 <= j < pending::<Predicate>(t).len() ==> is_op_ge(
                #[trigger] pending::<Predicate>(t)[j],
                pending_rank(t),
            ),
    decreases t, 0int,
{
    match t {
        ExprTree::Leaf(p) => {
            let ptok = PostfixToken::<Predicate>::Predicate(p);
            lemma_sy_run_from_one(out, st, InfixToken::<Predicate>::Predicate(p));
            assert(st + pending(t) =~= st);
            assert(out + seq![ptok] =~= out.push(ptok));
            assert(seq![ptok] + emit_ops::<Predicate>(pending(t)) =~= seq![ptok]);
            lemma_postfix_run_from_one(trees.len() as int, ptok);
            lemma_parse_run_from_one(trees, ptok);
            (seq![ptok], ExprTree::<Predicate>::Leaf(p))
        },
        ExprTree::Node(op, left, right) => {
            let rank = spec_precedence(op);
            let a = tree_infix_child(*left, op);
            let m = seq![InfixToken::<Predicate>::Operator(op)];
            let b = tree_infix_child(*right, op);
            assert(tree_infix(t) == a + m + b);
            let opitem = InfixStackItem::Operator(op);
            let optok = PostfixToken::<Predicate>::Operator(op);
            let cnt = trees.len() as int;

            // the left child: its own pending operators bind at least as
            // tightly as `op`, so the stack is ready for it
            if !needs_parens(*left, op) {
                match root_op(*left) {
                    Option::None => {},
                    Option::Some(ol) => {
                        assert(spec_precedence(ol) >= rank);
                        assert(sy_top_below(st, spec_precedence(ol)));
                    },
                }
            }
            let left_result = lemma_sy_render_child(out, st, *left, op, trees, evaluator);
            let w_l = left_result.0;
            let t_l = left_result.1;
            let pcl = pending_child(*left, op);

            // the operator token pops exactly the left child's pending
            // operators and comes to rest on the stack
            if !needs_parens(*left, op) {
                match root_op(*left) {
                    Option::None => {},
                    Option::Some(ol) => {
                        assert(pending_rank(*left) == spec_precedence(ol));
                    },
                }
            }
            assert(forall|j: int|
                0 <= j < pcl.len() ==> is_op_ge(#[trigger] pcl[j], rank));
            lemma_sy_run_from_concat(out, st, a, m);
            lemma_sy_run_from_one(out + w_l, st + pcl, InfixToken::<Predicate>::Operator(op));
            lemma_sy_pop_ge_suffix(out + w_l, st, pcl, rank);
            let u_l = w_l + emit_ops::<Predicate>(pcl);
            assert((out + w_l) + emit_ops::<Predicate>(pcl) =~= out + u_l);
            let str = st + seq![opitem];
            assert(st.push(opitem) =~= str);
            assert(sy_run_from(out, st, a + m) == (out + u_l, str));

            // the right child: left-leaning, so never the same connective;
            // under an `Or` it may be an `And` chain, which stops above the
            // pending `Or`
            if !needs_parens(*right, op) {
                match root_op(*right) {
                    Option::None => {},
                    Option::Some(orr) => {
                        assert(orr != op);
                        assert(spec_precedence(orr) >= rank);
                        assert(spec_precedence(orr) > spec_precedence(op));
                        assert(!is_op_ge(opitem, spec_precedence(orr)));
                        assert(sy_top_below(str, spec_precedence(orr)));
                    },
                }
            }
            let right_result = lemma_sy_render_child(
                out + u_l,
                str,
                *right,
                op,
                trees.push(t_l),
                evaluator,
            );
            let w_r = right_result.0;
            let t_r = right_result.1;
            let pcr = pending_child(*right, op);
            lemma_sy_run_from_concat(out, st, a + m, b);
            assert((a + m) + b == tree_infix(t));
            assert(sy_run_from(out, st, tree_infix(t)) == ((out + u_l) + w_r, str + pcr));

            // the pending operators of the whole tree
            assert(seq![opitem] + pcr == pending(t)) by {
                if needs_parens(*right, op) {
                    assert(root_op(*right) == Some(Operator::Or) && op == Operator::And);
                    assert(seq![opitem] + pcr =~= pending(t));
                } else {
                    assert(seq![opitem] + pcr =~= pending(t));
                }
            }
            assert(str + pcr =~= st + pending(t));
            let joined = u_l + w_r;
            assert((out + u_l) + w_r =~= out + joined);

            // the complete operand: both children's operands, then the
            // operator
            let u_r = w_r + emit_ops::<Predicate>(pcr);
            assert(emit_ops::<Predicate>(pending(t)) =~= emit_ops::<Predicate>(pcr) + seq![optok])
                by {
                assert(emit_ops::<Predicate>(Seq::<InfixStackItem>::empty()) =~= Seq::<
                    PostfixToken<Predicate>,
                >::empty());
                assert(seq![opitem].drop_last() =~= Seq::<InfixStackItem>::empty());
                assert(emit_ops::<Predicate>(seq![opitem]) =~= seq![optok]);
                if pcr.len() == 0 {
                    assert(pending(t) =~= seq![opitem]);
                    assert(emit_ops::<Predicate>(pcr) + seq![optok] =~= seq![optok]);
                } else {
                    match *right {
                        ExprTree::Leaf(_) => {
                            assert(false);
                        },
                        ExprTree::Node(opr, _, _) => {
                            // a pending operator exists, so the right child
                            // is an unparenthesized And chain under an Or
                            assert(!needs_parens(*right, op));
                            match opr {
                                Operator::Or => {
                                    if op == Operator::Or {
                                        assert(root_op(*right) == Some(op));
                                        assert(false);
                                    } else {
                                        assert(needs_parens(*right, op));
                                        assert(false);
                                    }
                                },
                                Operator::And => {},
                            }
                            assert(root_op(*right) == Some(Operator::And));
                            assert(op == Operator::Or);
                            let anditem = InfixStackItem::Operator(Operator::And);
                            let andtok = PostfixToken::<Predicate>::Operator(Operator::And);
                            assert(pcr =~= seq![anditem]);
                            assert(pcr.drop_last() =~= Seq::<InfixStackItem>::empty());
                            assert(emit_ops::<Predicate>(pcr) =~= seq![andtok]);
                            assert(pending(t) =~= seq![opitem, anditem]);
                            assert(pending(t).drop_last() =~= seq![opitem]);
                            assert(emit_ops::<Predicate>(pending(t)) =~= seq![andtok, optok]);
                            assert(emit_ops::<Predicate>(pcr) + seq![optok] =~= seq![
                                andtok,
                                optok,
                            ]);
                        },
                    }
                }
            }
            assert(joined + emit_ops::<Predicate>(pending(t)) =~= u_l + (u_r + seq![optok]));
            lemma_postfix_run_from_concat(cnt, u_l, u_r + seq![optok]);
            lemma_postfix_run_from_concat(cnt + 1, u_r, seq![optok]);
            lemma_postfix_run_from_one(cnt + 2, optok);
            lemma_parse_run_from_concat(trees, u_l, u_r + seq![optok]);
            lemma_parse_run_from_concat(trees.push(t_l), u_r, seq![optok]);
            lemma_parse_run_from_one(trees.push(t_l).push(t_r), optok);
            let t_n = ExprTree::<Predicate>::Node(op, Box::new(t_l), Box::new(t_r));
            assert(trees.push(t_l).push(t_r).drop_last().drop_last() =~= trees);
            assert(parse_run_from(trees, joined + emit_ops::<Predicate>(pending(t)))
                == trees.push(t_n));
            (joined, t_n)
        },
    }
}

/// What the conversion makes of one rendered child, parenthesized or not.
pub proof fn lemma_sy_render_child<Predicate, E: PredicateEvaluator<Predicate = Predicate>>(
    out: Seq<PostfixToken<Predicate>>,
    st: Seq<InfixStackItem>,
    child: ExprTree<Predicate>,
    parent: Operator,
    trees: Seq<ExprTree<Predicate>>,
    evaluator: &E,
) -> (result: (Seq<PostfixToken<Predicate>>, ExprTree<Predicate>))
    requires
        left_normal(child),
        !needs_parens(child, parent) ==> sy_entry_ok(st, child),
    ensures
        sy_run_from(out, st, tree_infix_child(child, parent)) == (
            out + result.0,
            st + pending_child(child, parent),
        ),
        postfix_run_from(
            trees.len() as int,
            result.0 + emit_ops::<Predicate>(pending_child(child, parent)),
        ) == Some(trees.len() as int + 1),
        parse_run_from(trees, result.0 + emit_ops::<Predicate>(pending_child(child, parent)))
            == trees.push(result.1),
        tree_eval(result.1, evaluator) == tree_eval(child, evaluator),
        forall|j: int|
            0 <= j < pending_child::<Predicate>(child, parent).len() ==> is_op_ge(
                #[trigger] pending_child::<Predicate>(child, parent)[j],
                pending_rank(child),
            ),
    decreases child, 1int,
{
    if needs_parens(child, parent) {
        let o = seq![InfixToken::<Predicate>::Parenthesis(Parenthesis::Open)];
        let body = tree_infix(child);
        let c = seq![InfixToken::<Predicate>::Parenthesis(Parenthesis::Close)];
        assert(tree_infix_child(child, parent) == o + body + c);
        let marker = InfixStackItem::Parenthesis(Parenthesis::Open);
        let stm = st + seq![marker];
        lemma_sy_run_from_one(out, st, InfixToken::<Predicate>::Parenthesis(Parenthesis::Open));
        assert(st.push(marker) =~= stm);
        assert(sy_run_from(out, st, o) == (out, stm));
        assert(sy_entry_ok(stm, child));
        let inner = lemma_sy_render_tree(out, stm, child, trees, evaluator);
        lemma_sy_run_from_concat(out, st, o, body);
        assert(sy_run_from(out, st, o + body) == (out + inner.0, stm + pending(child)));
        lemma_sy_run_from_concat(out, st, o + body, c);
        lemma_sy_run_from_one(out + inner.0, stm + pending(child), InfixToken::<
            Predicate,
        >::Parenthesis(Parenthesis::Close));
        assert(forall|j: int|
            0 <= j < pending::<Predicate>(child).len() ==> is_op_ge(
                #[trigger] pending::<Predicate>(child)[j],
                1,
            ));
        lemma_sy_pop_to_marker_suffix(out + inner.0, stm, pending(child));
        assert(stm.drop_last() =~= st);
        let w = inner.0 + emit_ops::<Predicate>(pending(child));
        assert((out + inner.0) + emit_ops::<Predicate>(pending(child)) =~= out + w);
        assert((o + body) + c == tree_infix_child(child, parent));
        assert(st + pending_child(child, parent) =~= st);
        assert(w + emit_ops::<Predicate>(pending_child(child, parent)) =~= w);
        (w, inner.1)
    } else {
        assert(tree_infix_child(child, parent) == tree_infix(child));
        lemma_sy_render_tree(out, st, child, trees, evaluator)
    }
}

/// The operators pending on the conversion stack, counted per grouping
/// level: one entry for the outermost level, plus one per marker.
pub open spec fn sy_layers(stack: Seq<InfixStackItem>) -> Seq<int>
    decreases stack.len(),
{
    if stack.len() == 0 {
        seq![0int]
    } else {
        let rest = sy_layers(stack.drop_last());
        match stack.last() {
            InfixStackItem::Operator(_) => rest.update(rest.len() - 1, rest.last() + 1),
            InfixStackItem::Parenthesis(_) => rest.push(0),
        }
    }
}

/// The per-level counts are well formed: at least one level, none negative.
pub proof fn lemma_sy_layers_wf(stack: Seq<InfixStackItem>)
    ensures
        sy_layers(stack).len() >= 1,
        forall|j: int| 0 <= j < sy_layers(stack).len() ==> #[trigger] sy_layers(stack)[j] >= 0,
    decreases stack.len(),
{
    if stack.len() > 0 {
        lemma_sy_layers_wf(stack.drop_last());
    }
}

/// Popping operators of at least `rank` takes some number of operators off
/// the top level and emits each of them legally.
pub proof fn lemma_sy_pop_ge_sim<Predicate>(
    out: Seq<PostfixToken<Predicate>>,
    st: Seq<InfixStackItem>,
    rank: int,
    c: int,
) -> (k: int)
    requires
        postfix_run(out) == Some(c),
        c >= sy_layers(st).last() + 1,
    ensures
        0 <= k <= sy_layers(st).last(),
        postfix_run(sy_pop_ge(out, st, rank).0) == Some(c - k),
        sy_layers(sy_pop_ge(out, st, rank).1) == sy_layers(st).update(
            sy_layers(st).len() - 1,
            sy_layers(st).last() - k,
        ),
    decreases st.len(),
{
    lemma_sy_layers_wf(st);
    let layers = sy_layers(st);
    if st.len() == 0 {
        assert(layers.update(layers.len() - 1, layers.last() - 0) =~= layers);
        0
    } else {
        let rest = sy_layers(st.drop_last());
        lemma_sy_layers_wf(st.drop_last());
        match st.last() {
            InfixStackItem::Operator(op) => {
                if spec_precedence(op) >= rank {
                    let optok = PostfixToken::<Predicate>::Operator(op);
                    assert(out.push(optok).drop_last() =~= out);
                    assert(postfix_run(out.push(optok)) == Some(c - 1));
                    let k2 = lemma_sy_pop_ge_sim(out.push(optok), st.drop_last(), rank, c - 1);
                    assert(rest.update(rest.len() - 1, rest.last() - k2) =~= layers.update(
                        layers.len() - 1,
                        layers.last() - (k2 + 1),
                    ));
                    k2 + 1
                } else {
                    assert(layers.update(layers.len() - 1, layers.last() - 0) =~= layers);
                    0
                }
            },
            InfixStackItem::Parenthesis(_) => {
                assert(layers.update(layers.len() - 1, layers.last() - 0) =~= layers);
                0
            },
        }
    }
}

/// Popping down to a marker empties the top level, emitting each operator
/// legally, and then removes the level.
pub proof fn lemma_sy_pop_to_marker_sim<Predicate>(
    out: Seq<PostfixToken<Predicate>>,
    st: Seq<InfixStackItem>,
    c: int,
)
    requires
        postfix_run(out) == Some(c),
        sy_layers(st).len() >= 2,
        sy_layers(st).last() == 0 || c >= sy_layers(st).last() + 1,
    ensures
        postfix_run(sy_pop_to_marker(out, st).0) == Some(c - sy_layers(st).last()),
        sy_layers(sy_pop_to_marker(out, st).1) == sy_layers(st).drop_last(),
    decreases st.len(),
{
    lemma_sy_layers_wf(st);
    let layers = sy_layers(st);
    assert(st.len() > 0);
    let rest = sy_layers(st.drop_last());
    lemma_sy_layers_wf(st.drop_last());
    match st.last() {
        InfixStackItem::Operator(op) => {
            let optok = PostfixToken::<Predicate>::Operator(op);
            assert(layers.last() == rest.last() + 1);
            assert(out.push(optok).drop_last() =~= out);
            assert(postfix_run(out.push(optok)) == Some(c - 1));
            lemma_sy_pop_to_marker_sim(out.push(optok), st.drop_last(), c - 1);
            assert(rest.drop_last() =~= layers.drop_last());
        },
        InfixStackItem::Parenthesis(_) => {
            assert(layers == rest.push(0));
            assert(layers.last() == 0);
            assert(layers.drop_last() =~= rest);
        },
    }
}

/// Finishing the conversion with no marker left empties the outermost
/// level, emitting each operator legally, and lands on one operand.
pub proof fn lemma_sy_finish_sim<Predicate>(
    out: Seq<PostfixToken<Predicate>>,
    st: Seq<InfixStackItem>,
    c: int,
)
    requires
        postfix_run(out) == Some(c),
        sy_layers(st).len() == 1,
        c == sy_layers(st).last() + 1,
    ensures
        postfix_run(sy_finish(out, st)) == Some(1int),
    decreases st.len(),
{
    lemma_sy_layers_wf(st);
    let layers = sy_layers(st);
    if st.len() == 0 {
        assert(sy_finish(out, st) == out);
    } else {
        let rest = sy_layers(st.drop_last());
        lemma_sy_layers_wf(st.drop_last());
        match st.last() {
            InfixStackItem::Operator(op) => {
                let optok = PostfixToken::<Predicate>::Operator(op);
                assert(layers.last() == rest.last() + 1);
                assert(out.push(optok).drop_last() =~= out);
                assert(postfix_run(out.push(optok)) == Some(c - 1));
                lemma_sy_finish_sim(out.push(optok), st.drop_last(), c - 1);
            },
            InfixStackItem::Parenthesis(_) => {
                assert(layers.len() >= 2);
            },
        }
    }
}

/// The simulation invariant between the validity check and the conversion,
/// over every prefix of a valid sequence: the emitted output is a legal
/// postfix prefix whose operand count follows the pending operators, and
/// the conversion keeps at least one operator in every grouping level in
/// which the check counts one.
pub proof fn lemma_sy_sim<Predicate>(s: Seq<InfixToken<Predicate>>, i: int)
    requires
        infix_valid(s),
        0 <= i <= s.len(),
    ensures
        infix_run(s.take(i)) matches Some(vst) && {
            let sy = sy_run(s.take(i));
            let layers = sy_layers(sy.1);
            &&& postfix_run(sy.0) == Some(
                seq_sum(layers) + (if vst.expected {
                    0int
                } else {
                    1int
                }),
            )
            &&& layers.len() == vst.levels.len()
            &&& forall|j: int| 0 <= j < layers.len() ==> 0 <= #[trigger] layers[j] <= vst.levels[j]
            &&& forall|j: int|
                0 <= j < layers.len() ==> (vst.levels[j] >= 1 ==> #[trigger] layers[j] >= 1)
        },
    decreases i,
{
    lemma_infix_valid_prefix_some(s, i);
    if i == 0 {
        assert(s.take(0) =~= Seq::<InfixToken<Predicate>>::empty());
        assert(sy_layers(Seq::<InfixStackItem>::empty()) == seq![0int]);
        assert(seq![0int].drop_last() =~= Seq::<int>::empty());
        assert(seq_sum(Seq::<int>::empty()) == 0);
        assert(postfix_run(Seq::<PostfixToken<Predicate>>::empty()) == Some(0int));
    } else {
        lemma_sy_sim(s, i - 1);
        let p = s.take(i - 1);
        let q = s.take(i);
        assert(q.drop_last() =~= p);
        assert(q.last() == s[i - 1]);
        let vprev = infix_run(p)->0;
        let out0 = sy_run(p).0;
        let st0 = sy_run(p).1;
        let layers0 = sy_layers(st0);
        let c0 = seq_sum(layers0) + (if vprev.expected {
            0int
        } else {
            1int
        });
        lemma_sy_layers_wf(st0);
        lemma_infix_run_shape(p);
        match s[i - 1] {
            InfixToken::Predicate(_) => {
                let ptok = PostfixToken::<Predicate>::Predicate(s[i - 1]->Predicate_0);
                assert(out0.push(ptok).drop_last() =~= out0);
                assert(postfix_run(out0.push(ptok)) == Some(c0 + 1));
            },
            InfixToken::Operator(op) => {
                lemma_infix_valid_op_position(s, i - 1);
                assert(!vprev.expected);
                lemma_seq_sum_lower(layers0, layers0.len() - 1);
                let k = lemma_sy_pop_ge_sim(out0, st0, spec_precedence(op), c0);
                let popped = sy_pop_ge(out0, st0, spec_precedence(op));
                let layers1 = sy_layers(popped.1);
                lemma_seq_sum_update_last(layers0, layers0.last() - k);
                assert(popped.1.push(InfixStackItem::Operator(op)).drop_last() =~= popped.1);
                let layers2 = sy_layers(popped.1.push(InfixStackItem::Operator(op)));
                assert(layers2 == layers1.update(layers1.len() - 1, layers1.last() + 1));
                lemma_sy_layers_wf(popped.1);
                lemma_seq_sum_update_last(layers1, layers1.last() + 1);
                assert(seq_sum(layers2) == seq_sum(layers0) - k + 1);
                let vcur = infix_run(q)->0;
                assert(vcur.levels == vprev.levels.update(
                    vprev.levels.len() - 1,
                    vprev.levels.last() + 1,
                ));
            },
            InfixToken::Parenthesis(Parenthesis::Open) => {
                let marker = InfixStackItem::Parenthesis(Parenthesis::Open);
                assert(st0.push(marker).drop_last() =~= st0);
                let layers1 = sy_layers(st0.push(marker));
                assert(layers1 == layers0.push(0));
                assert(layers1.drop_last() =~= layers0);
                assert(seq_sum(layers1) == seq_sum(layers0));
            },
            InfixToken::Parenthesis(Parenthesis::Close) => {
                let vcur = infix_run(q)->0;
                assert(vprev.levels.len() >= 2);
                assert(layers0.len() >= 2);
                // a close parenthesis stands only after a completed
                // operand, so one more operand is emitted than the pending
                // operators of this level consume
                assert(!vprev.expected);
                lemma_seq_sum_lower(layers0, layers0.len() - 1);
                assert(c0 >= layers0.last() + 1);
                lemma_sy_pop_to_marker_sim(out0, st0, c0);
                assert(seq_sum(layers0) == seq_sum(layers0.drop_last()) + layers0.last());
                assert(vcur.levels == vprev.levels.drop_last());
            },
        }
    }
}

/// The shunting-yard conversion of a valid infix sequence is a valid
/// postfix sequence.
pub proof fn lemma_shunting_yard_valid<Predicate>(s: Seq<InfixToken<Predicate>>)
    requires
        infix_valid(s),
    ensures
        postfix_valid(shunting_yard(s)),
{
    lemma_sy_sim(s, s.len() as int);
    assert(s.take(s.len() as int) =~= s);
    lemma_infix_valid_counts(s);
    let vst = infix_run(s)->0;
    let out = sy_run(s).0;
    let st = sy_run(s).1;
    let layers = sy_layers(st);
    assert(layers.len() == 1);
    assert(layers.drop_last() =~= Seq::<int>::empty());
    assert(seq_sum(Seq::<int>::empty()) == 0);
    assert(seq_sum(layers) == layers.last());
    lemma_sy_finish_sim(out, st, seq_sum(layers) + 1);
}

} // verus!
