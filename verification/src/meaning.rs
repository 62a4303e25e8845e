//! What the direct reading of [`crate::infix::infix_value`] makes of a
//! rendered tree: exactly the tree's truth value.  This ties the infix form
//! of an expression to its meaning without going through any conversion.

use vstd::prelude::*;

use crate::counts::lemma_infix_valid_op_position;
use crate::counts::lemma_infix_valid_prefix_some;
use crate::evaluator::PredicateEvaluator;
use crate::infix::ChainFrame;
use crate::infix::InfixStackItem;
use crate::infix::infix_run;
use crate::infix::infix_step;
use crate::infix::infix_valid;
use crate::infix::sy_run;
use crate::infix::sy_step;
use crate::roundtrip::is_op_ge;
use crate::roundtrip::lemma_sy_pop_ge_suffix;
use crate::roundtrip::lemma_sy_pop_to_marker_suffix;
use crate::roundtrip::sy_top_below;
use crate::tokens::PostfixToken;
use crate::tree::parse_run;
use crate::infix::frame_init;
use crate::infix::frame_value;
use crate::infix::infix_frame_step;
use crate::infix::infix_frames;
use crate::infix::infix_value;
use crate::tokens::InfixToken;
use crate::tokens::Operator;
use crate::tokens::Parenthesis;
use crate::tree::ExprTree;
use crate::tree::needs_parens;
use crate::tree::root_op;
use crate::tree::tree_eval;
use crate::tree::tree_infix;
use crate::tree::tree_infix_child;

verus! {

/// The direct reading run over `s` from given levels instead of the
/// initial one.
pub open spec fn infix_frames_from<Predicate, E: PredicateEvaluator<Predicate = Predicate>>(
    frames: Seq<ChainFrame>,
    s: Seq<InfixToken<Predicate>>,
    evaluator: &E,
) -> Seq<ChainFrame>
    decreases s.len(),
{
    if s.len() == 0 {
        frames
    } else {
        infix_frame_step(infix_frames_from(frames, s.drop_last(), evaluator), s.last(), evaluator)
    }
}

/// The reading from the initial level is the reading of
/// [`infix_frames`].
pub proof fn lemma_infix_frames_is_from<Predicate, E: PredicateEvaluator<Predicate = Predicate>>(
    s: Seq<InfixToken<Predicate>>,
    evaluator: &E,
)
    ensures
        infix_frames(s, evaluator) == infix_frames_from(seq![frame_init()], s, evaluator),
    decreases s.len(),
{
    if s.len() > 0 {
        lemma_infix_frames_is_from(s.drop_last(), evaluator);
    }
}

/// Running the reading over a concatenation runs it over the parts in
/// turn.
pub proof fn lemma_infix_frames_from_concat<
    Predicate,
    E: PredicateEvaluator<Predicate = Predicate>,
>(
    frames: Seq<ChainFrame>,
    a: Seq<InfixToken<Predicate>>,
    b: Seq<InfixToken<Predicate>>,
    evaluator: &E,
)
    ensures
        infix_frames_from(frames, a + b, evaluator) == infix_frames_from(
            infix_frames_from(frames, a, evaluator),
            b,
            evaluator,
        ),
    decreases b.len(),
{
    if b.len() == 0 {
        assert(a + b =~= a);
    } else {
        assert((a + b).drop_last() =~= a + b.drop_last());
        assert((a + b).last() == b.last());
        lemma_infix_frames_from_concat(frames, a, b.drop_last(), evaluator);
    }
}

/// Running the reading over a single token is one step.
pub proof fn lemma_infix_frames_from_one<Predicate, E: PredicateEvaluator<Predicate = Predicate>>(
    frames: Seq<ChainFrame>,
    t: InfixToken<Predicate>,
    evaluator: &E,
)
    ensures
        infix_frames_from(frames, seq![t], evaluator) == infix_frame_step(frames, t, evaluator),
{
    let s = seq![t];
    assert(s.drop_last() =~= Seq::<InfixToken<Predicate>>::empty());
    assert(infix_frames_from(frames, Seq::<InfixToken<Predicate>>::empty(), evaluator) == frames);
    assert(s.last() == t);
}

/// What the direct reading makes of one rendered tree: it changes only the
/// topmost level, and the level's value afterwards is its value with the
/// tree's truth value joined to the open conjunction run.  A rendering
/// whose root is not an `Or` joins the run exactly like a single predicate
/// with the tree's value; one rooted at an `Or` spreads over the level's
/// disjunction, which is why it only ever stands where the run is fresh.
pub proof fn lemma_render_frames<Predicate, E: PredicateEvaluator<Predicate = Predicate>>(
    frames: Seq<ChainFrame>,
    t: ExprTree<Predicate>,
    evaluator: &E,
) -> (result: ChainFrame)
    requires
        frames.len() >= 1,
        root_op(t) == Some(Operator::Or) ==> frames.last().conjunct,
    ensures
        infix_frames_from(frames, tree_infix(t), evaluator) == frames.update(
            frames.len() - 1,
            result,
        ),
        frame_value(result) == (frames.last().disjunct || (frames.last().conjunct && tree_eval(
            t,
            evaluator,
        ))),
        root_op(t) != Some(Operator::Or) ==> result == (ChainFrame {
            disjunct: frames.last().disjunct,
            conjunct: frames.last().conjunct && tree_eval(t, evaluator),
        }),
    decreases t, 0int,
{
    let top = frames.last();
    match t {
        ExprTree::Leaf(p) => {
            lemma_infix_frames_from_one(frames, InfixToken::<Predicate>::Predicate(p), evaluator);
            ChainFrame { disjunct: top.disjunct, conjunct: top.conjunct && tree_eval(t, evaluator) }
        },
        ExprTree::Node(op, left, right) => {
            let a = tree_infix_child(*left, op);
            let m = seq![InfixToken::<Predicate>::Operator(op)];
            let b = tree_infix_child(*right, op);
            assert(tree_infix(t) == a + m + b);
            let f_left = lemma_render_frames_child(frames, *left, op, evaluator);
            let frames1 = frames.update(frames.len() - 1, f_left);
            lemma_infix_frames_from_concat(frames, a, m, evaluator);
            lemma_infix_frames_from_one(frames1, InfixToken::<Predicate>::Operator(op), evaluator);
            match op {
                Operator::And => {
                    assert(infix_frame_step(
                        frames1,
                        InfixToken::<Predicate>::Operator(op),
                        evaluator,
                    ) == frames1);
                    let f_right = lemma_render_frames_child(frames1, *right, op, evaluator);
                    lemma_infix_frames_from_concat(frames, a + m, b, evaluator);
                    assert((a + m) + b == tree_infix(t));
                    assert(frames1.update(frames1.len() - 1, f_right) =~= frames.update(
                        frames.len() - 1,
                        f_right,
                    ));
                    f_right
                },
                Operator::Or => {
                    let f_or = ChainFrame {
                        disjunct: f_left.disjunct || f_left.conjunct,
                        conjunct: true,
                    };
                    let frames2 = frames.update(frames.len() - 1, f_or);
                    assert(frames1.update(frames1.len() - 1, f_or) =~= frames2);
                    let f_right = lemma_render_frames_child(frames2, *right, op, evaluator);
                    lemma_infix_frames_from_concat(frames, a + m, b, evaluator);
                    assert((a + m) + b == tree_infix(t));
                    assert(frames2.update(frames2.len() - 1, f_right) =~= frames.update(
                        frames.len() - 1,
                        f_right,
                    ));
                    f_right
                },
            }
        },
    }
}

/// What the direct reading makes of one rendered child: a parenthesized
/// child always joins the open conjunction run exactly like a single
/// predicate with the child's value.
pub proof fn lemma_render_frames_child<Predicate, E: PredicateEvaluator<Predicate = Predicate>>(
    frames: Seq<ChainFrame>,
    child: ExprTree<Predicate>,
    parent: Operator,
    evaluator: &E,
) -> (result: ChainFrame)
    requires
        frames.len() >= 1,
        !needs_parens(child, parent) && root_op(child) == Some(Operator::Or)
            ==> frames.last().conjunct,
    ensures
        infix_frames_from(frames, tree_infix_child(child, parent), evaluator) == frames.update(
            frames.len() - 1,
            result,
        ),
        frame_value(result) == (frames.last().disjunct || (frames.last().conjunct && tree_eval(
            child,
            evaluator,
        ))),
        needs_parens(child, parent) || root_op(child) != Some(Operator::Or) ==> result
            == (ChainFrame {
            disjunct: frames.last().disjunct,
            conjunct: frames.last().conjunct && tree_eval(child, evaluator),
        }),
    decreases child, 1int,
{
    let top = frames.last();
    if needs_parens(child, parent) {
        let o = seq![InfixToken::<Predicate>::Parenthesis(Parenthesis::Open)];
        let body = tree_infix(child);
        let c = seq![InfixToken::<Predicate>::Parenthesis(Parenthesis::Close)];
        assert(tree_infix_child(child, parent) == o + body + c);
        lemma_infix_frames_from_one(
            frames,
            InfixToken::<Predicate>::Parenthesis(Parenthesis::Open),
            evaluator,
        );
        let opened = frames.push(frame_init());
        let f_inner = lemma_render_frames(opened, child, evaluator);
        assert(frame_value(f_inner) == tree_eval(child, evaluator));
        let closed_from = opened.update(opened.len() - 1, f_inner);
        assert(closed_from =~= frames.push(f_inner));
        lemma_infix_frames_from_concat(frames, o, body, evaluator);
        lemma_infix_frames_from_one(
            closed_from,
            InfixToken::<Predicate>::Parenthesis(Parenthesis::Close),
            evaluator,
        );
        lemma_infix_frames_from_concat(frames, o + body, c, evaluator);
        assert((o + body) + c == tree_infix_child(child, parent));
        let merged = ChainFrame {
            disjunct: top.disjunct,
            conjunct: top.conjunct && frame_value(f_inner),
        };
        assert(closed_from[closed_from.len() - 2] == top);
        assert(closed_from.drop_last().update(closed_from.len() - 2, merged) =~= frames.update(
            frames.len() - 1,
            merged,
        ));
        merged
    } else {
        assert(tree_infix_child(child, parent) == tree_infix(child));
        lemma_render_frames(frames, child, evaluator)
    }
}

/// The direct reading of a rendered tree is the tree's truth value.
pub proof fn lemma_rendered_tree_value<Predicate, E: PredicateEvaluator<Predicate = Predicate>>(
    t: ExprTree<Predicate>,
    evaluator: &E,
)
    ensures
        infix_value(tree_infix(t), evaluator) == tree_eval(t, evaluator),
{
    lemma_infix_frames_is_from(tree_infix(t), evaluator);
    let start = seq![frame_init()];
    let f = lemma_render_frames(start, t, evaluator);
    assert(start.update(0, f) =~= seq![f]);
}

/// One grouping level as the conversion keeps it: the pending operators of
/// the level, bottom first, and the parse trees of the operands already
/// emitted for them.
pub struct LevelRec<Predicate> {
    pub ops: Seq<InfixStackItem>,
    pub vals: Seq<ExprTree<Predicate>>,
}

/// The conversion stack that a sequence of levels stands for: the levels'
/// pending operators, separated by markers.
pub open spec fn stack_of<Predicate>(recs: Seq<LevelRec<Predicate>>) -> Seq<InfixStackItem>
    decreases recs.len(),
{
    if recs.len() == 0 {
        Seq::<InfixStackItem>::empty()
    } else if recs.len() == 1 {
        recs[0].ops
    } else {
        stack_of(recs.drop_last()) + seq![
            InfixStackItem::Parenthesis(Parenthesis::Open),
        ] + recs.last().ops
    }
}

/// All pending operand trees, bottom level first: the parse of everything
/// the conversion has emitted.
pub open spec fn flat_trees<Predicate>(recs: Seq<LevelRec<Predicate>>) -> Seq<ExprTree<Predicate>>
    decreases recs.len(),
{
    if recs.len() == 0 {
        Seq::<ExprTree<Predicate>>::empty()
    } else {
        flat_trees(recs.drop_last()) + recs.last().vals
    }
}

/// The truth value of a conjunction of operand trees.
pub open spec fn trees_conj<Predicate, E: PredicateEvaluator<Predicate = Predicate>>(
    vals: Seq<ExprTree<Predicate>>,
    evaluator: &E,
) -> bool
    decreases vals.len(),
{
    if vals.len() == 0 {
        true
    } else {
        trees_conj(vals.drop_last(), evaluator) && tree_eval(vals.last(), evaluator)
    }
}

/// The level shapes the conversion can produce: operators within one level
/// bind more tightly upward, so at most an `Or` with an `And` above it.
pub open spec fn level_ok(ops: Seq<InfixStackItem>) -> bool {
    ||| ops == Seq::<InfixStackItem>::empty()
    ||| ops == seq![InfixStackItem::Operator(Operator::Or)]
    ||| ops == seq![InfixStackItem::Operator(Operator::And)]
    ||| ops == seq![
        InfixStackItem::Operator(Operator::Or),
        InfixStackItem::Operator(Operator::And),
    ]
}

/// The direct reading of one level: a pending `Or` holds the disjunction
/// built so far as its first operand, and the operands above it are the
/// open conjunction run.
pub open spec fn level_frame<Predicate, E: PredicateEvaluator<Predicate = Predicate>>(
    rec: LevelRec<Predicate>,
    evaluator: &E,
) -> ChainFrame {
    if rec.ops.len() >= 1 && rec.ops[0] == InfixStackItem::Operator(Operator::Or) {
        ChainFrame {
            disjunct: tree_eval(rec.vals[0], evaluator),
            conjunct: trees_conj(rec.vals.skip(1), evaluator),
        }
    } else {
        ChainFrame { disjunct: false, conjunct: trees_conj(rec.vals, evaluator) }
    }
}

/// The direct reading of every level.
pub open spec fn frames_of<Predicate, E: PredicateEvaluator<Predicate = Predicate>>(
    recs: Seq<LevelRec<Predicate>>,
    evaluator: &E,
) -> Seq<ChainFrame>
    decreases recs.len(),
{
    if recs.len() == 0 {
        Seq::<ChainFrame>::empty()
    } else {
        frames_of(recs.drop_last(), evaluator).push(level_frame(recs.last(), evaluator))
    }
}

/// Emitting one level's pending operators folds its operand trees into a
/// single parse tree whose truth value is the level's direct reading.
pub proof fn lemma_level_emit<Predicate, E: PredicateEvaluator<Predicate = Predicate>>(
    base: Seq<ExprTree<Predicate>>,
    rec: LevelRec<Predicate>,
    evaluator: &E,
) -> (folded: ExprTree<Predicate>)
    requires
        level_ok(rec.ops),
        rec.vals.len() == rec.ops.len() + 1,
    ensures
        crate::roundtrip::parse_run_from(base + rec.vals, crate::roundtrip::emit_ops::<Predicate>(
            rec.ops,
        )) == base.push(folded),
        tree_eval(folded, evaluator) == frame_value(level_frame(rec, evaluator)),
{
    let or_item = InfixStackItem::Operator(Operator::Or);
    let and_item = InfixStackItem::Operator(Operator::And);
    let and_tok = PostfixToken::<Predicate>::Operator(Operator::And);
    let or_tok = PostfixToken::<Predicate>::Operator(Operator::Or);
    let start = base + rec.vals;
    assert(crate::roundtrip::emit_ops::<Predicate>(Seq::<InfixStackItem>::empty()) =~= Seq::<
        PostfixToken<Predicate>,
    >::empty());
    assert(trees_conj(Seq::<ExprTree<Predicate>>::empty(), evaluator) == true);
    if rec.ops == Seq::<InfixStackItem>::empty() {
        let v = rec.vals[0];
        assert(rec.vals.drop_last() =~= Seq::<ExprTree<Predicate>>::empty());
        assert(trees_conj(rec.vals, evaluator) == tree_eval(v, evaluator));
        assert(start =~= base.push(v));
        v
    } else if rec.ops == seq![and_item] {
        let y = rec.vals[0];
        let v = rec.vals[1];
        assert(seq![and_item].drop_last() =~= Seq::<InfixStackItem>::empty());
        assert(crate::roundtrip::emit_ops::<Predicate>(rec.ops) =~= seq![and_tok]);
        crate::roundtrip::lemma_parse_run_from_one(start, and_tok);
        assert(start.len() == base.len() + 2);
        assert(start[start.len() - 2] == y && start.last() == v);
        let folded = ExprTree::<Predicate>::Node(Operator::And, Box::new(y), Box::new(v));
        assert(start.drop_last().drop_last() =~= base);
        assert(rec.vals.drop_last() =~= seq![y]);
        assert(seq![y].drop_last() =~= Seq::<ExprTree<Predicate>>::empty());
        assert(trees_conj(seq![y], evaluator) == tree_eval(y, evaluator));
        assert(trees_conj(rec.vals, evaluator) == (tree_eval(y, evaluator) && tree_eval(
            v,
            evaluator,
        )));
        folded
    } else if rec.ops == seq![or_item] {
        let x = rec.vals[0];
        let v = rec.vals[1];
        assert(seq![or_item].drop_last() =~= Seq::<InfixStackItem>::empty());
        assert(crate::roundtrip::emit_ops::<Predicate>(rec.ops) =~= seq![or_tok]);
        crate::roundtrip::lemma_parse_run_from_one(start, or_tok);
        assert(start[start.len() - 2] == x && start.last() == v);
        let folded = ExprTree::<Predicate>::Node(Operator::Or, Box::new(x), Box::new(v));
        assert(start.drop_last().drop_last() =~= base);
        assert(rec.vals.skip(1) =~= seq![v]);
        assert(seq![v].drop_last() =~= Seq::<ExprTree<Predicate>>::empty());
        assert(trees_conj(seq![v], evaluator) == tree_eval(v, evaluator));
        folded
    } else {
        let x = rec.vals[0];
        let y = rec.vals[1];
        let v = rec.vals[2];
        assert(rec.ops == seq![or_item, and_item]);
        assert(rec.ops.drop_last() =~= seq![or_item]);
        assert(seq![or_item].drop_last() =~= Seq::<InfixStackItem>::empty());
        assert(crate::roundtrip::emit_ops::<Predicate>(seq![or_item]) =~= seq![or_tok]);
        assert(crate::roundtrip::emit_ops::<Predicate>(rec.ops) =~= seq![and_tok] + seq![or_tok]);
        assert(seq![and_tok] + seq![or_tok] =~= seq![and_tok, or_tok]);
        assert(crate::roundtrip::emit_ops::<Predicate>(rec.ops) =~= seq![and_tok, or_tok]);
        assert(seq![and_tok, or_tok] =~= seq![and_tok] + seq![or_tok]);
        crate::roundtrip::lemma_parse_run_from_concat(start, seq![and_tok], seq![or_tok]);
        crate::roundtrip::lemma_parse_run_from_one(start, and_tok);
        assert(start.len() == base.len() + 3);
        assert(start[start.len() - 2] == y && start.last() == v);
        let inner = ExprTree::<Predicate>::Node(Operator::And, Box::new(y), Box::new(v));
        let mid = start.drop_last().drop_last().push(inner);
        assert(crate::roundtrip::parse_run_from(start, seq![and_tok]) == mid);
        crate::roundtrip::lemma_parse_run_from_one(mid, or_tok);
        assert(mid[mid.len() - 2] == x && mid.last() == inner);
        let folded = ExprTree::<Predicate>::Node(Operator::Or, Box::new(x), Box::new(inner));
        assert(tree_eval(inner, evaluator) == (tree_eval(y, evaluator) && tree_eval(v, evaluator)));
        assert(tree_eval(folded, evaluator) == (tree_eval(x, evaluator) || tree_eval(
            inner,
            evaluator,
        )));
        assert(mid.drop_last().drop_last() =~= base);
        assert(rec.vals.skip(1) =~= seq![y, v]);
        assert(seq![y, v].drop_last() =~= seq![y]);
        assert(seq![y].drop_last() =~= Seq::<ExprTree<Predicate>>::empty());
        assert(trees_conj(seq![y], evaluator) == tree_eval(y, evaluator));
        assert(trees_conj(seq![y, v], evaluator) == (tree_eval(y, evaluator) && tree_eval(
            v,
            evaluator,
        )));
        folded
    }
}

/// The stack below the topmost level's operators: everything up to and
/// including the topmost marker.
pub open spec fn stack_prefix<Predicate>(recs: Seq<LevelRec<Predicate>>) -> Seq<InfixStackItem> {
    if recs.len() <= 1 {
        Seq::<InfixStackItem>::empty()
    } else {
        stack_of(recs.drop_last()) + seq![InfixStackItem::Parenthesis(Parenthesis::Open)]
    }
}

/// The stack splits at the topmost marker, and what lies below it never
/// takes part in a pop.
pub proof fn lemma_stack_of_split<Predicate>(recs: Seq<LevelRec<Predicate>>)
    requires
        recs.len() >= 1,
    ensures
        stack_of(recs) == stack_prefix(recs) + recs.last().ops,
        stack_prefix(recs).len() == 0 || stack_prefix(recs).last() is Parenthesis,
{
    if recs.len() == 1 {
        assert(Seq::<InfixStackItem>::empty() + recs[0].ops =~= recs[0].ops);
    } else {
        assert(stack_prefix(recs) + recs.last().ops =~= stack_of(recs.drop_last()) + seq![
            InfixStackItem::Parenthesis(Parenthesis::Open),
        ] + recs.last().ops);
        assert(stack_prefix(recs).last() == InfixStackItem::Parenthesis(Parenthesis::Open));
    }
}

/// Replacing the topmost level replaces the operators above the topmost
/// marker and nothing else.
pub proof fn lemma_stack_of_update<Predicate>(recs: Seq<LevelRec<Predicate>>, rec2: LevelRec<
    Predicate,
>)
    requires
        recs.len() >= 1,
    ensures
        stack_of(recs.update(recs.len() - 1, rec2)) == stack_prefix(recs) + rec2.ops,
{
    let u = recs.update(recs.len() - 1, rec2);
    if recs.len() == 1 {
        assert(stack_of(u) == u[0].ops);
        assert(Seq::<InfixStackItem>::empty() + rec2.ops =~= rec2.ops);
    } else {
        assert(u.drop_last() =~= recs.drop_last());
        assert(stack_of(u) == stack_of(recs.drop_last()) + seq![
            InfixStackItem::Parenthesis(Parenthesis::Open),
        ] + rec2.ops);
    }
}

/// Each level contributes one frame.
pub proof fn lemma_frames_of_len<Predicate, E: PredicateEvaluator<Predicate = Predicate>>(
    recs: Seq<LevelRec<Predicate>>,
    evaluator: &E,
)
    ensures
        frames_of(recs, evaluator).len() == recs.len(),
    decreases recs.len(),
{
    if recs.len() > 0 {
        lemma_frames_of_len(recs.drop_last(), evaluator);
    }
}

/// The joint walk of the validity check, the shunting-yard conversion and
/// the direct reading over every prefix of a valid sequence: the conversion
/// stack and the parse of the emitted output decompose into grouping
/// levels, and each level reads back as exactly one frame of the direct
/// reading.
#[verifier::rlimit(100)]
pub proof fn lemma_sy_value_sim<Predicate, E: PredicateEvaluator<Predicate = Predicate>>(
    s: Seq<InfixToken<Predicate>>,
    i: int,
    evaluator: &E,
) -> (recs: Seq<LevelRec<Predicate>>)
    requires
        infix_valid(s),
        0 <= i <= s.len(),
    ensures
        infix_run(s.take(i)) is Some,
        recs.len() >= 1,
        recs.len() == infix_run(s.take(i))->0.levels.len(),
        sy_run(s.take(i)).1 == stack_of(recs),
        parse_run(sy_run(s.take(i)).0) == flat_trees(recs),
        infix_frames(s.take(i), evaluator) == frames_of(recs, evaluator),
        forall|j: int| 0 <= j < recs.len() ==> level_ok((#[trigger] recs[j]).ops),
        forall|j: int|
            0 <= j < recs.len() - 1 ==> (#[trigger] recs[j]).vals.len() == recs[j].ops.len(),
        recs.last().vals.len() == recs.last().ops.len() + (if infix_run(s.take(i))->0.expected {
            0int
        } else {
            1int
        }),
    decreases i,
{
    let or_item = InfixStackItem::Operator(Operator::Or);
    let and_item = InfixStackItem::Operator(Operator::And);
    let marker = InfixStackItem::Parenthesis(Parenthesis::Open);
    let no_trees = Seq::<ExprTree<Predicate>>::empty();
    assert(trees_conj(no_trees, evaluator) == true);
    if i == 0 {
        assert(s.take(0) =~= Seq::<InfixToken<Predicate>>::empty());
        let recs = seq![LevelRec::<Predicate> { ops: Seq::<InfixStackItem>::empty(), vals: no_trees }];
        assert(recs.drop_last() =~= Seq::<LevelRec<Predicate>>::empty());
        assert(flat_trees(Seq::<LevelRec<Predicate>>::empty()) =~= no_trees);
        assert(flat_trees(recs) =~= no_trees);
        assert(frames_of(Seq::<LevelRec<Predicate>>::empty(), evaluator) =~= Seq::<
            ChainFrame,
        >::empty());
        assert(frames_of(recs, evaluator) =~= seq![frame_init()]);
        recs
    } else {
        let prev = lemma_sy_value_sim(s, i - 1, evaluator);
        lemma_infix_valid_prefix_some(s, i);
        let p = s.take(i - 1);
        let q = s.take(i);
        assert(q.drop_last() =~= p);
        assert(q.last() == s[i - 1]);
        let vprev = infix_run(p)->0;
        assert(infix_run(q) == infix_step(vprev, s[i - 1]));
        let out0 = sy_run(p).0;
        let st0 = sy_run(p).1;
        assert(sy_run(q) == sy_step(out0, st0, s[i - 1]));
        let top = prev.last();
        let base = flat_trees(prev.drop_last());
        assert(flat_trees(prev) == base + top.vals);
        lemma_stack_of_split(prev);
        let pre = stack_prefix(prev);
        let fs = frames_of(prev, evaluator);
        lemma_frames_of_len(prev, evaluator);
        let g = level_frame(top, evaluator);
        assert(fs == frames_of(prev.drop_last(), evaluator).push(g));
        assert(infix_frames(q, evaluator) == infix_frame_step(
            infix_frames(p, evaluator),
            s[i - 1],
            evaluator,
        ));
        match s[i - 1] {
            InfixToken::Predicate(p0) => {
                assert(vprev.expected);
                assert(top.vals.len() == top.ops.len());
                let ptok = PostfixToken::<Predicate>::Predicate(p0);
                let leaf = ExprTree::<Predicate>::Leaf(p0);
                assert(sy_run(q).0 == out0.push(ptok) && sy_run(q).1 == st0);
                assert(out0.push(ptok) =~= out0 + seq![ptok]);
                crate::roundtrip::lemma_parse_run_is_from(out0);
                crate::roundtrip::lemma_parse_run_is_from(out0 + seq![ptok]);
                crate::roundtrip::lemma_parse_run_from_concat(no_trees, out0, seq![ptok]);
                crate::roundtrip::lemma_parse_run_from_one(parse_run(out0), ptok);
                assert(parse_run(sy_run(q).0) == parse_run(out0).push(leaf));
                let rec2 = LevelRec { ops: top.ops, vals: top.vals.push(leaf) };
                let recs2 = prev.update(prev.len() - 1, rec2);
                lemma_stack_of_update(prev, rec2);
                assert(stack_of(recs2) == st0);
                assert(recs2.drop_last() =~= prev.drop_last());
                assert(flat_trees(recs2) == base + rec2.vals);
                assert(base + top.vals.push(leaf) =~= (base + top.vals).push(leaf));
                // the new operand joins the open conjunction run
                assert(top.vals.push(leaf).drop_last() =~= top.vals);
                assert(trees_conj(top.vals.push(leaf), evaluator) == (trees_conj(
                    top.vals,
                    evaluator,
                ) && evaluator.decide_spec(&p0)));
                let g2 = level_frame(rec2, evaluator);
                if top.ops.len() >= 1 && top.ops[0] == or_item {
                    assert(top.vals.len() >= 1);
                    assert(top.vals.push(leaf)[0] == top.vals[0]);
                    assert(top.vals.push(leaf).skip(1) =~= top.vals.skip(1).push(leaf));
                    assert(top.vals.skip(1).push(leaf).drop_last() =~= top.vals.skip(1));
                    assert(trees_conj(top.vals.skip(1).push(leaf), evaluator) == (trees_conj(
                        top.vals.skip(1),
                        evaluator,
                    ) && evaluator.decide_spec(&p0)));
                }
                assert(g2 == ChainFrame {
                    disjunct: g.disjunct,
                    conjunct: g.conjunct && evaluator.decide_spec(&p0),
                });
                assert(frames_of(recs2, evaluator) == frames_of(prev.drop_last(), evaluator).push(
                    g2,
                ));
                assert(infix_frames(q, evaluator) == fs.update(fs.len() - 1, g2));
                assert(fs.update(fs.len() - 1, g2) =~= frames_of(prev.drop_last(), evaluator).push(
                    g2,
                ));
                recs2
            },
            InfixToken::Operator(op) => {
                lemma_infix_valid_op_position(s, i - 1);
                assert(!vprev.expected);
                assert(top.vals.len() == top.ops.len() + 1);
                assert(forall|j: int|
                    0 <= j < top.ops.len() ==> is_op_ge(#[trigger] top.ops[j], 1)) by {
                    assert(level_ok(top.ops));
                }
                match op {
                    Operator::Or => {
                        lemma_sy_pop_ge_suffix(out0, pre, top.ops, 1);
                        assert(pre + top.ops == st0);
                        let emitted = crate::roundtrip::emit_ops::<Predicate>(top.ops);
                        assert(sy_run(q).0 == out0 + emitted);
                        assert(sy_run(q).1 == pre.push(or_item));
                        let folded = lemma_level_emit(base, top, evaluator);
                        crate::roundtrip::lemma_parse_run_is_from(out0);
                        crate::roundtrip::lemma_parse_run_is_from(out0 + emitted);
                        crate::roundtrip::lemma_parse_run_from_concat(no_trees, out0, emitted);
                        assert(parse_run(sy_run(q).0) == base.push(folded));
                        let rec2 = LevelRec { ops: seq![or_item], vals: seq![folded] };
                        let recs2 = prev.update(prev.len() - 1, rec2);
                        lemma_stack_of_update(prev, rec2);
                        assert(pre + seq![or_item] =~= pre.push(or_item));
                        assert(recs2.drop_last() =~= prev.drop_last());
                        assert(flat_trees(recs2) == base + seq![folded]);
                        assert(base + seq![folded] =~= base.push(folded));
                        // the finished conjunction run joins the disjunction
                        let g2 = level_frame(rec2, evaluator);
                        assert(seq![folded].drop_last() =~= no_trees);
                        assert(trees_conj(seq![folded], evaluator) == tree_eval(folded, evaluator));
                        assert(seq![folded].skip(1) =~= no_trees);
                        assert(g2 == ChainFrame {
                            disjunct: g.disjunct || g.conjunct,
                            conjunct: true,
                        });
                        assert(frames_of(recs2, evaluator) == frames_of(
                            prev.drop_last(),
                            evaluator,
                        ).push(g2));
                        assert(infix_frames(q, evaluator) == fs.update(fs.len() - 1, g2));
                        assert(fs.update(fs.len() - 1, g2) =~= frames_of(
                            prev.drop_last(),
                            evaluator,
                        ).push(g2));
                        recs2
                    },
                    Operator::And => {
                        if top.ops == Seq::<InfixStackItem>::empty() || top.ops == seq![or_item] {
                            // nothing pops: the level's topmost operator, if
                            // any, binds less tightly
                            assert(sy_top_below(st0, 2)) by {
                                if top.ops == seq![or_item] {
                                    assert(st0.last() == or_item);
                                } else {
                                    assert(st0 =~= pre);
                                }
                            }
                            lemma_sy_pop_ge_suffix(
                                out0,
                                st0,
                                Seq::<InfixStackItem>::empty(),
                                2,
                            );
                            assert(st0 + Seq::<InfixStackItem>::empty() =~= st0);
                            assert(out0 + crate::roundtrip::emit_ops::<Predicate>(
                                Seq::<InfixStackItem>::empty(),
                            ) =~= out0);
                            assert(sy_run(q).0 == out0);
                            assert(sy_run(q).1 == st0.push(and_item));
                            let rec2 = LevelRec {
                                ops: top.ops + seq![and_item],
                                vals: top.vals,
                            };
                            let recs2 = prev.update(prev.len() - 1, rec2);
                            lemma_stack_of_update(prev, rec2);
                            assert(pre + (top.ops + seq![and_item]) =~= (pre + top.ops).push(
                                and_item,
                            ));
                            assert(recs2.drop_last() =~= prev.drop_last());
                            assert(flat_trees(recs2) == base + top.vals);
                            // level shape and reading are unchanged
                            assert(level_ok(rec2.ops)) by {
                                if top.ops == seq![or_item] {
                                    assert(rec2.ops =~= seq![or_item, and_item]);
                                } else {
                                    assert(rec2.ops =~= seq![and_item]);
                                }
                            }
                            let g2 = level_frame(rec2, evaluator);
                            assert(g2 == g) by {
                                if top.ops == seq![or_item] {
                                    assert(rec2.ops[0] == or_item);
                                } else {
                                    assert(rec2.ops =~= seq![and_item]);
                                    assert(rec2.ops[0] == and_item);
                                }
                            }
                            assert(infix_frames(q, evaluator) == fs);
                            assert(frames_of(recs2, evaluator) == frames_of(
                                prev.drop_last(),
                                evaluator,
                            ).push(g2));
                            assert(fs =~= frames_of(prev.drop_last(), evaluator).push(g2));
                            recs2
                        } else {
                            // the pending And pops, folding the run's two
                            // newest operands into one
                            let stem = top.ops.drop_last();
                            assert(top.ops =~= stem + seq![and_item]) by {
                                if top.ops == seq![and_item] {
                                    assert(stem =~= Seq::<InfixStackItem>::empty());
                                } else {
                                    assert(top.ops == seq![or_item, and_item]);
                                    assert(stem =~= seq![or_item]);
                                }
                            }
                            assert(sy_top_below(pre + stem, 2)) by {
                                if top.ops == seq![and_item] {
                                    assert(pre + stem =~= pre);
                                } else {
                                    assert((pre + stem).last() == or_item);
                                }
                            }
                            lemma_sy_pop_ge_suffix(out0, pre + stem, seq![and_item], 2);
                            assert((pre + stem) + seq![and_item] =~= pre + top.ops);
                            let emitted = crate::roundtrip::emit_ops::<Predicate>(
                                seq![and_item],
                            );
                            assert(sy_run(q).0 == out0 + emitted);
                            assert(sy_run(q).1 == (pre + stem).push(and_item));
                            assert((pre + stem).push(and_item) =~= pre + top.ops);
                            assert(sy_run(q).1 == st0);
                            // fold the two newest operands on the parse side
                            let y = top.vals[top.vals.len() - 2];
                            let v = top.vals.last();
                            let kept = top.vals.drop_last().drop_last();
                            let mini = LevelRec { ops: seq![and_item], vals: seq![y, v] };
                            let folded = lemma_level_emit(base + kept, mini, evaluator);
                            assert((base + kept) + seq![y, v] =~= base + top.vals);
                            crate::roundtrip::lemma_parse_run_is_from(out0);
                            crate::roundtrip::lemma_parse_run_is_from(out0 + emitted);
                            crate::roundtrip::lemma_parse_run_from_concat(no_trees, out0, emitted);
                            assert(parse_run(sy_run(q).0) == (base + kept).push(folded));
                            let rec2 = LevelRec { ops: top.ops, vals: kept.push(folded) };
                            let recs2 = prev.update(prev.len() - 1, rec2);
                            lemma_stack_of_update(prev, rec2);
                            assert(stack_of(recs2) == st0);
                            assert(recs2.drop_last() =~= prev.drop_last());
                            assert(flat_trees(recs2) == base + kept.push(folded));
                            assert(base + kept.push(folded) =~= (base + kept).push(folded));
                            // the fold keeps the run's value
                            assert(tree_eval(folded, evaluator) == (tree_eval(y, evaluator)
                                && tree_eval(v, evaluator))) by {
                                assert(seq![y, v].drop_last() =~= seq![y]);
                                assert(seq![y].drop_last() =~= no_trees);
                                assert(mini.ops[0] == and_item);
                                assert(trees_conj(seq![y], evaluator) == tree_eval(y, evaluator));
                                assert(trees_conj(seq![y, v], evaluator) == (tree_eval(
                                    y,
                                    evaluator,
                                ) && tree_eval(v, evaluator)));
                            }
                            let g2 = level_frame(rec2, evaluator);
                            assert(g2 == g) by {
                                assert(top.vals.drop_last() =~= kept.push(y));
                                assert(kept.push(y).drop_last() =~= kept);
                                assert(kept.push(folded).drop_last() =~= kept);
                                assert(trees_conj(kept.push(y), evaluator) == (trees_conj(
                                    kept,
                                    evaluator,
                                ) && tree_eval(y, evaluator)));
                                assert(top.vals.last() == v);
                                assert(trees_conj(top.vals, evaluator) == (trees_conj(
                                    kept,
                                    evaluator,
                                ) && tree_eval(y, evaluator) && tree_eval(v, evaluator)));
                                assert(trees_conj(kept.push(folded), evaluator) == (trees_conj(
                                    kept,
                                    evaluator,
                                ) && tree_eval(folded, evaluator)));
                                if top.ops == seq![or_item, and_item] {
                                    assert(top.vals.len() == 3);
                                    assert(kept.push(folded)[0] == top.vals[0]) by {
                                        assert(kept =~= seq![top.vals[0]]);
                                    }
                                    assert(kept.push(folded).skip(1) =~= seq![folded]);
                                    assert(top.vals.skip(1) =~= seq![y, v]);
                                    assert(seq![folded].drop_last() =~= no_trees);
                                    assert(seq![y, v].drop_last() =~= seq![y]);
                                    assert(seq![y].drop_last() =~= no_trees);
                                } else {
                                    assert(top.ops == seq![and_item]);
                                    assert(rec2.ops[0] == and_item);
                                }
                            }
                            assert(infix_frames(q, evaluator) == fs);
                            assert(frames_of(recs2, evaluator) == frames_of(
                                prev.drop_last(),
                                evaluator,
                            ).push(g2));
                            assert(fs =~= frames_of(prev.drop_last(), evaluator).push(g2));
                            recs2
                        }
                    },
                }
            },
            InfixToken::Parenthesis(Parenthesis::Open) => {
                assert(vprev.expected);
                assert(top.vals.len() == top.ops.len());
                assert(sy_run(q).0 == out0 && sy_run(q).1 == st0.push(marker));
                let fresh = LevelRec::<Predicate> {
                    ops: Seq::<InfixStackItem>::empty(),
                    vals: no_trees,
                };
                let recs2 = prev.push(fresh);
                assert(recs2.drop_last() =~= prev);
                assert(recs2.len() >= 2);
                assert(stack_of(recs2) == stack_of(prev) + seq![marker] + fresh.ops);
                assert(stack_of(prev) + seq![marker] + fresh.ops =~= st0.push(marker));
                assert(flat_trees(recs2) == flat_trees(prev) + no_trees);
                assert(flat_trees(prev) + no_trees =~= flat_trees(prev));
                let g2 = level_frame(fresh, evaluator);
                assert(g2 == frame_init());
                assert(frames_of(recs2, evaluator) == fs.push(g2));
                assert(infix_frames(q, evaluator) == fs.push(frame_init()));
                recs2
            },
            InfixToken::Parenthesis(Parenthesis::Close) => {
                assert(!vprev.expected);
                assert(vprev.levels.len() >= 2);
                assert(prev.len() >= 2);
                assert(top.vals.len() == top.ops.len() + 1);
                assert(forall|j: int|
                    0 <= j < top.ops.len() ==> is_op_ge(#[trigger] top.ops[j], 1)) by {
                    assert(level_ok(top.ops));
                }
                let dd = prev.drop_last();
                assert(pre == stack_of(dd) + seq![marker]);
                assert(pre.last() == marker);
                lemma_sy_pop_to_marker_suffix(out0, pre, top.ops);
                assert(pre + top.ops == st0);
                assert(pre.drop_last() =~= stack_of(dd));
                let emitted = crate::roundtrip::emit_ops::<Predicate>(top.ops);
                assert(sy_run(q).0 == out0 + emitted);
                assert(sy_run(q).1 == stack_of(dd));
                let folded = lemma_level_emit(base, top, evaluator);
                crate::roundtrip::lemma_parse_run_is_from(out0);
                crate::roundtrip::lemma_parse_run_is_from(out0 + emitted);
                crate::roundtrip::lemma_parse_run_from_concat(no_trees, out0, emitted);
                assert(parse_run(sy_run(q).0) == base.push(folded));
                let parent = dd.last();
                let parent2 = LevelRec { ops: parent.ops, vals: parent.vals.push(folded) };
                let recs2 = dd.update(dd.len() - 1, parent2);
                lemma_stack_of_split(dd);
                lemma_stack_of_update(dd, parent2);
                assert(stack_of(recs2) == stack_of(dd));
                // the folded group joins the run below as one operand
                assert(base == flat_trees(dd.drop_last()) + parent.vals);
                assert(recs2.drop_last() =~= dd.drop_last());
                assert(flat_trees(recs2) == flat_trees(dd.drop_last()) + parent.vals.push(folded));
                assert(flat_trees(dd.drop_last()) + parent.vals.push(folded) =~= base.push(folded));
                // frames: the topmost frame folds into the one below
                lemma_frames_of_len(dd, evaluator);
                let g_parent = level_frame(parent, evaluator);
                assert(frames_of(dd, evaluator) == frames_of(dd.drop_last(), evaluator).push(
                    g_parent,
                ));
                assert(fs.len() >= 2);
                assert(fs[fs.len() - 2] == g_parent);
                let merged = ChainFrame {
                    disjunct: g_parent.disjunct,
                    conjunct: g_parent.conjunct && frame_value(g),
                };
                assert(infix_frames(q, evaluator) == fs.drop_last().update(fs.len() - 2, merged));
                assert(parent.vals.len() == parent.ops.len());
                assert(parent.vals.push(folded).drop_last() =~= parent.vals);
                assert(trees_conj(parent.vals.push(folded), evaluator) == (trees_conj(
                    parent.vals,
                    evaluator,
                ) && tree_eval(folded, evaluator)));
                let g2 = level_frame(parent2, evaluator);
                if parent.ops.len() >= 1 && parent.ops[0] == or_item {
                    assert(parent.vals.len() >= 1);
                    assert(parent.vals.push(folded)[0] == parent.vals[0]);
                    assert(parent.vals.push(folded).skip(1) =~= parent.vals.skip(1).push(folded));
                    assert(parent.vals.skip(1).push(folded).drop_last() =~= parent.vals.skip(1));
                    assert(trees_conj(parent.vals.skip(1).push(folded), evaluator) == (trees_conj(
                        parent.vals.skip(1),
                        evaluator,
                    ) && tree_eval(folded, evaluator)));
                }
                assert(g2 == merged);
                assert(frames_of(recs2, evaluator) == frames_of(dd.drop_last(), evaluator).push(
                    g2,
                ));
                assert(fs.drop_last() =~= frames_of(dd, evaluator));
                assert(fs.drop_last().update(fs.len() - 2, merged) =~= frames_of(
                    dd.drop_last(),
                    evaluator,
                ).push(g2));
                recs2
            },
        }
    }
}

} // verus!
