//! Infix expressions: validity, construction, and the shunting-yard
//! conversion to postfix form.

use vstd::prelude::*;

use crate::evaluator::PredicateEvaluator;
use crate::postfix::PostfixExpression;
use crate::postfix::postfix_valid;
use crate::tokens::InfixToken;
use crate::tokens::Operator;
use crate::tokens::Parenthesis;
use crate::tokens::PostfixToken;
use crate::tokens::spec_precedence;

verus! {

/// The state of the infix validity check after some prefix: the number of
/// pending operators at every open grouping level (`levels` always has one
/// entry for the outermost level, plus one per unmatched open parenthesis),
/// the number of predicate operands still available, and whether the next
/// predicate may appear here.
pub struct InfixState {
    pub levels: Seq<int>,
    pub cnt: int,
    pub expected: bool,
}

/// The state of the validity check before any token.
pub open spec fn infix_init() -> InfixState {
    InfixState { levels: seq![0int], cnt: 0, expected: true }
}

/// One token of the infix validity check, run left to right.
///
/// A predicate or an open parenthesis may stand only where a predicate is
/// expected: at the start, right after an operator, or right after an open
/// parenthesis.  A predicate supplies one operand; an operator demands
/// another predicate and joins the pending operators of its level; an open
/// parenthesis opens a fresh level.  A close parenthesis may stand only
/// after a completed operand — never after an operator or on an empty group
/// — and folds the pending operators of its level, each consuming one
/// operand, which requires a level to close and enough operands for every
/// fold.  `None` means the check has failed; a failure is permanent.
pub open spec fn infix_step<Predicate>(st: InfixState, t: InfixToken<Predicate>) -> Option<
    InfixState,
> {
    match t {
        InfixToken::Predicate(_) => if st.expected {
            Some(InfixState { levels: st.levels, cnt: st.cnt + 1, expected: false })
        } else {
            Option::<InfixState>::None
        },
        InfixToken::Operator(_) => Some(
            InfixState {
                levels: st.levels.update(st.levels.len() - 1, st.levels.last() + 1),
                cnt: st.cnt,
                expected: true,
            },
        ),
        InfixToken::Parenthesis(Parenthesis::Open) => if st.expected {
            Some(InfixState { levels: st.levels.push(0), cnt: st.cnt, expected: st.expected })
        } else {
            Option::<InfixState>::None
        },
        InfixToken::Parenthesis(Parenthesis::Close) => if !st.expected && st.levels.len() >= 2 && (
        st.levels.last() == 0 || st.cnt >= st.levels.last() + 1) {
            Some(
                InfixState {
                    levels: st.levels.drop_last(),
                    cnt: st.cnt - st.levels.last(),
                    expected: st.expected,
                },
            )
        } else {
            Option::<InfixState>::None
        },
    }
}

/// The state of the validity check after running all of `s`, or `None` if
/// some token failed the check.
pub open spec fn infix_run<Predicate>(s: Seq<InfixToken<Predicate>>) -> Option<InfixState>
    decreases s.len(),
{
    if s.len() == 0 {
        Some(infix_init())
    } else {
        match infix_run(s.drop_last()) {
            Option::None => Option::<InfixState>::None,
            Option::Some(st) => infix_step(st, s.last()),
        }
    }
}

/// Whether an end state is accepting: every parenthesis closed, and folding
/// the pending outermost operators — each consumes one operand — leaves
/// exactly one operand.
pub open spec fn infix_accept(st: InfixState) -> bool {
    st.levels.len() == 1 && st.cnt == st.levels[0] + 1
}

/// An infix token sequence is valid when the left-to-right check accepts it.
pub open spec fn infix_valid<Predicate>(s: Seq<InfixToken<Predicate>>) -> bool {
    match infix_run(s) {
        Option::None => false,
        Option::Some(st) => infix_accept(st),
    }
}

/// One open grouping level in the direct reading of an infix sequence: the
/// truth value of the disjunction completed so far, and of the conjunction
/// run still open on its right.
pub struct ChainFrame {
    pub disjunct: bool,
    pub conjunct: bool,
}

/// The reading of a level that has taken in nothing yet.
pub open spec fn frame_init() -> ChainFrame {
    ChainFrame { disjunct: false, conjunct: true }
}

/// The truth value of a completed level: its disjunction, with the last
/// conjunction run as the final disjunct.
pub open spec fn frame_value(frame: ChainFrame) -> bool {
    frame.disjunct || frame.conjunct
}

/// One token of the direct reading.  Within a grouping level the tokens
/// form operands alternating with connectives, and since `And` binds
/// tighter than `Or` the level's value is the disjunction of its maximal
/// conjunction runs: an operand joins the open conjunction run, `And`
/// keeps it open, `Or` completes it as one disjunct, an open parenthesis
/// starts a fresh level, and a close parenthesis folds the finished level
/// into the run below as one operand.
pub open spec fn infix_frame_step<Predicate, E: PredicateEvaluator<Predicate = Predicate>>(
    frames: Seq<ChainFrame>,
    t: InfixToken<Predicate>,
    evaluator: &E,
) -> Seq<ChainFrame> {
    match t {
        InfixToken::Predicate(p) => {
            let top = frames.last();
            frames.update(
                frames.len() - 1,
                ChainFrame {
                    disjunct: top.disjunct,
                    conjunct: top.conjunct && evaluator.decide_spec(&p),
                },
            )
        },
        InfixToken::Operator(Operator::And) => frames,
        InfixToken::Operator(Operator::Or) => {
            let top = frames.last();
            frames.update(
                frames.len() - 1,
                ChainFrame { disjunct: top.disjunct || top.conjunct, conjunct: true },
            )
        },
        InfixToken::Parenthesis(Parenthesis::Open) => frames.push(frame_init()),
        InfixToken::Parenthesis(Parenthesis::Close) => if frames.len() >= 2 {
            let inner = frames.last();
            let outer = frames[frames.len() - 2];
            frames.drop_last().update(
                frames.len() - 2,
                ChainFrame {
                    disjunct: outer.disjunct,
                    conjunct: outer.conjunct && frame_value(inner),
                },
            )
        } else {
            frames
        },
    }
}

/// The open levels of the direct reading after all of `s`.
pub open spec fn infix_frames<Predicate, E: PredicateEvaluator<Predicate = Predicate>>(
    s: Seq<InfixToken<Predicate>>,
    evaluator: &E,
) -> Seq<ChainFrame>
    decreases s.len(),
{
    if s.len() == 0 {
        seq![frame_init()]
    } else {
        infix_frame_step(infix_frames(s.drop_last(), evaluator), s.last(), evaluator)
    }
}

/// The truth value of an infix token sequence under `evaluator`, read
/// directly off its grammatical structure by [`infix_frame_step`].  It is
/// what a valid sequence means; on a malformed sequence it is some
/// truth value with no claim attached.
pub open spec fn infix_value<Predicate, E: PredicateEvaluator<Predicate = Predicate>>(
    s: Seq<InfixToken<Predicate>>,
    evaluator: &E,
) -> bool {
    frame_value(infix_frames(s, evaluator).last())
}

/// Once the validity check has failed on a prefix, it fails on the whole
/// sequence.
pub proof fn lemma_infix_run_none<Predicate>(s: Seq<InfixToken<Predicate>>, j: int)
    requires
        0 <= j <= s.len(),
        infix_run(s.take(j)) is None,
    ensures
        infix_run(s) is None,
    decreases s.len() - j,
{
    if j == s.len() {
        assert(s.take(j) =~= s);
    } else {
        assert(s.take(j + 1).drop_last() =~= s.take(j));
        lemma_infix_run_none(s, j + 1);
    }
}

/// One entry of the shunting-yard stack: a pending operator, or the marker
/// left by an open parenthesis.
#[derive(PartialEq, Eq, Structural, Copy, Clone, Debug)]
pub enum InfixStackItem {
    Operator(Operator),
    Parenthesis(Parenthesis),
}

/// Pops pending operators whose precedence is at least `rank` off the stack
/// and emits them, stopping at a marker or at an operator that binds less
/// tightly.
pub open spec fn sy_pop_ge<Predicate>(
    out: Seq<PostfixToken<Predicate>>,
    stack: Seq<InfixStackItem>,
    rank: int,
) -> (Seq<PostfixToken<Predicate>>, Seq<InfixStackItem>)
    decreases stack.len(),
{
    if stack.len() == 0 {
        (out, stack)
    } else {
        match stack.last() {
            InfixStackItem::Operator(op) => if spec_precedence(op) >= rank {
                sy_pop_ge(out.push(PostfixToken::Operator(op)), stack.drop_last(), rank)
            } else {
                (out, stack)
            },
            InfixStackItem::Parenthesis(_) => (out, stack),
        }
    }
}

/// Pops and emits pending operators down to the nearest marker, then
/// discards the marker.
pub open spec fn sy_pop_to_marker<Predicate>(
    out: Seq<PostfixToken<Predicate>>,
    stack: Seq<InfixStackItem>,
) -> (Seq<PostfixToken<Predicate>>, Seq<InfixStackItem>)
    decreases stack.len(),
{
    if stack.len() == 0 {
        (out, stack)
    } else {
        match stack.last() {
            InfixStackItem::Operator(op) => sy_pop_to_marker(
                out.push(PostfixToken::Operator(op)),
                stack.drop_last(),
            ),
            InfixStackItem::Parenthesis(_) => (out, stack.drop_last()),
        }
    }
}

/// One token of the shunting-yard conversion: predicates go straight to the
/// output, operators first displace pending operators that bind at least as
/// tightly — which makes chains of one operator left-associative — and
/// parentheses open and close a protected stack region.
pub open spec fn sy_step<Predicate>(
    out: Seq<PostfixToken<Predicate>>,
    stack: Seq<InfixStackItem>,
    t: InfixToken<Predicate>,
) -> (Seq<PostfixToken<Predicate>>, Seq<InfixStackItem>) {
    match t {
        InfixToken::Predicate(p) => (out.push(PostfixToken::Predicate(p)), stack),
        InfixToken::Operator(op) => {
            let popped = sy_pop_ge(out, stack, spec_precedence(op));
            (popped.0, popped.1.push(InfixStackItem::Operator(op)))
        },
        InfixToken::Parenthesis(Parenthesis::Open) => (
            out,
            stack.push(InfixStackItem::Parenthesis(Parenthesis::Open)),
        ),
        InfixToken::Parenthesis(Parenthesis::Close) => sy_pop_to_marker(out, stack),
    }
}

/// Output and stack of the shunting-yard conversion after running all of
/// `s`.
pub open spec fn sy_run<Predicate>(s: Seq<InfixToken<Predicate>>) -> (
    Seq<PostfixToken<Predicate>>,
    Seq<InfixStackItem>,
)
    decreases s.len(),
{
    if s.len() == 0 {
        (Seq::<PostfixToken<Predicate>>::empty(), Seq::<InfixStackItem>::empty())
    } else {
        let prev = sy_run(s.drop_last());
        sy_step(prev.0, prev.1, s.last())
    }
}

/// Emits the operators still pending when the input is exhausted, stopping
/// at the first marker.
pub open spec fn sy_finish<Predicate>(
    out: Seq<PostfixToken<Predicate>>,
    stack: Seq<InfixStackItem>,
) -> Seq<PostfixToken<Predicate>>
    decreases stack.len(),
{
    if stack.len() == 0 {
        out
    } else {
        match stack.last() {
            InfixStackItem::Operator(op) => sy_finish(
                out.push(PostfixToken::Operator(op)),
                stack.drop_last(),
            ),
            InfixStackItem::Parenthesis(_) => out,
        }
    }
}

/// The postfix token sequence that the shunting-yard conversion produces
/// for `s`.
pub open spec fn shunting_yard<Predicate>(s: Seq<InfixToken<Predicate>>) -> Seq<
    PostfixToken<Predicate>,
> {
    let run = sy_run(s);
    sy_finish(run.0, run.1)
}

/// A validated, immutable infix expression.  The token sequence satisfies
/// [`infix_valid`] from construction on.
#[derive(Debug, PartialEq)]
pub struct InfixExpression<Predicate> {
    tokens: Vec<InfixToken<Predicate>>,
}

impl<Predicate> View for InfixExpression<Predicate> {
    type V = Seq<InfixToken<Predicate>>;

    closed spec fn view(&self) -> Seq<InfixToken<Predicate>> {
        self.tokens@
    }
}

impl<Predicate> InfixExpression<Predicate> {
    /// The construction invariant: the owned token sequence is valid.
    pub open spec fn wf(self) -> bool {
        infix_valid(self@)
    }

    /// Wraps the token sequence into an expression if it is valid, and
    /// returns `None` exactly when it is not.
    pub fn from_tokens(tokens: Vec<InfixToken<Predicate>>) -> (result: Option<Self>)
        ensures
            result is Some <==> infix_valid(tokens@),
            result matches Some(e) ==> e@ == tokens@ && e.wf(),
    {
        if Self::are_tokens_valid(&tokens) {
            Some(InfixExpression { tokens })
        } else {
            None
        }
    }

    /// Converts the expression to postfix form with the shunting-yard pass.
    /// The result of converting a valid expression is proved valid, so it is
    /// wrapped without being checked again, and the conversion always
    /// succeeds.  Evaluating the result returns the expression's own
    /// reading, [`infix_value`]: see
    /// [`crate::laws::lemma_to_postfix_preserves_meaning`].
    pub fn to_postfix(self) -> (result: Option<PostfixExpression<Predicate>>)
        requires
            self.wf(),
        ensures
            result is Some,
            result matches Some(e) ==> e@ == shunting_yard(self@) && e.wf(),
    {
        proof {
            crate::roundtrip::lemma_shunting_yard_valid(self@);
        }
        let ghost s = self@;
        let mut toks = self.tokens;
        let mut output: Vec<PostfixToken<Predicate>> = Vec::new();
        let mut stack: Vec<InfixStackItem> = Vec::new();
        let n = toks.len();
        let mut i: usize = 0;
        proof {
            assert(s.take(0) =~= Seq::<InfixToken<Predicate>>::empty());
        }
        while i < n
            invariant
                n == s.len(),
                0 <= i <= n,
                i + toks@.len() == n,
                toks@ == s.skip(i as int),
                (output@, stack@) == sy_run(s.take(i as int)),
            decreases n - i,
        {
            proof {
                assert(s.take(i + 1).drop_last() =~= s.take(i as int));
                assert(s.take(i + 1).last() == s[i as int]);
                assert(s.skip(i as int)[0] == s[i as int]);
                assert(s.skip(i as int).remove(0) =~= s.skip(i + 1));
            }
            let token = toks.remove(0);
            match token {
                InfixToken::Predicate(p) => {
                    output.push(PostfixToken::Predicate(p));
                },
                InfixToken::Operator(op) => {
                    let rank = op.precedence();
                    let ghost out0 = output@;
                    let ghost st0 = stack@;
                    while stack.len() > 0
                        invariant
                            rank == spec_precedence(op),
                            sy_pop_ge(out0, st0, rank as int) == sy_pop_ge(
                                output@,
                                stack@,
                                rank as int,
                            ),
                        ensures
                            rank == spec_precedence(op),
                            sy_pop_ge(out0, st0, rank as int) == (output@, stack@),
                        decreases stack@.len(),
                    {
                        let top = stack[stack.len() - 1];
                        match top {
                            InfixStackItem::Operator(stack_op) => {
                                if rank > stack_op.precedence() {
                                    break;
                                }
                                output.push(PostfixToken::Operator(stack_op));
                                stack.pop();
                            },
                            InfixStackItem::Parenthesis(_) => {
                                break;
                            },
                        }
                    }
                    stack.push(InfixStackItem::Operator(op));
                },
                InfixToken::Parenthesis(Parenthesis::Open) => {
                    stack.push(InfixStackItem::Parenthesis(Parenthesis::Open));
                },
                InfixToken::Parenthesis(Parenthesis::Close) => {
                    let ghost out0 = output@;
                    let ghost st0 = stack@;
                    while stack.len() > 0
                        invariant_except_break
                            sy_pop_to_marker(out0, st0) == sy_pop_to_marker(output@, stack@),
                        ensures
                            sy_pop_to_marker(out0, st0) == (output@, stack@),
                        decreases stack@.len(),
                    {
                        let top = stack[stack.len() - 1];
                        match top {
                            InfixStackItem::Operator(stack_op) => {
                                output.push(PostfixToken::Operator(stack_op));
                                stack.pop();
                            },
                            InfixStackItem::Parenthesis(_) => {
                                stack.pop();
                                break;
                            },
                        }
                    }
                },
            }
            i = i + 1;
        }
        proof {
            assert(s.take(n as int) =~= s);
        }
        let ghost out0 = output@;
        let ghost st0 = stack@;
        while stack.len() > 0
            invariant_except_break
                sy_finish(out0, st0) == sy_finish(output@, stack@),
            ensures
                sy_finish(out0, st0) == output@,
            decreases stack@.len(),
        {
            match stack.pop().unwrap() {
                InfixStackItem::Operator(op) => {
                    output.push(PostfixToken::Operator(op));
                },
                InfixStackItem::Parenthesis(_) => {
                    break;
                },
            }
        }
        Some(PostfixExpression::from_tokens_unchecked(output))
    }

    /// Wraps a token sequence that the caller has already shown to be valid,
    /// skipping the check.
    pub(crate) fn from_tokens_unchecked(tokens: Vec<InfixToken<Predicate>>) -> (result: Self)
        requires
            infix_valid(tokens@),
        ensures
            result@ == tokens@,
            result.wf(),
    {
        InfixExpression { tokens }
    }

    /// Runs the left-to-right check of [`infix_valid`], tracking only the
    /// per-level operator counts rather than the operators themselves.
    fn are_tokens_valid(tokens: &Vec<InfixToken<Predicate>>) -> (valid: bool)
        ensures
            valid == infix_valid(tokens@),
    {
        let ghost s = tokens@;
        let mut levels: Vec<usize> = Vec::new();
        levels.push(0);
        let mut cnt: usize = 0;
        let mut expected = true;
        let n = tokens.len();
        let mut i: usize = 0;
        proof {
            assert(s.take(0) =~= Seq::<InfixToken<Predicate>>::empty());
            assert(levels@.map_values(|v: usize| v as int) =~= seq![0int]);
        }
        while i < n
            invariant
                n == s.len(),
                0 <= i <= n,
                tokens@ == s,
                levels@.len() >= 1,
                cnt <= i,
                forall|j: int| 0 <= j < levels@.len() ==> #[trigger] levels@[j] <= i,
                infix_run(s.take(i as int)) == Some(
                    InfixState {
                        levels: levels@.map_values(|v: usize| v as int),
                        cnt: cnt as int,
                        expected: expected,
                    },
                ),
            decreases n - i,
        {
            proof {
                assert(s.take(i + 1).drop_last() =~= s.take(i as int));
                assert(s.take(i + 1).last() == s[i as int]);
            }
            let ghost lv = levels@.map_values(|v: usize| v as int);
            match &tokens[i] {
                InfixToken::Predicate(_) => {
                    if !expected {
                        proof {
                            lemma_infix_run_none(s, i + 1);
                        }
                        return false;
                    }
                    cnt = cnt + 1;
                    expected = false;
                },
                InfixToken::Operator(_) => {
                    let top = levels.pop().unwrap();
                    levels.push(top + 1);
                    proof {
                        assert(levels@.map_values(|v: usize| v as int) =~= lv.update(
                            lv.len() - 1,
                            lv.last() + 1,
                        ));
                    }
                    expected = true;
                },
                InfixToken::Parenthesis(Parenthesis::Open) => {
                    if !expected {
                        proof {
                            lemma_infix_run_none(s, i + 1);
                        }
                        return false;
                    }
                    levels.push(0);
                    proof {
                        assert(levels@.map_values(|v: usize| v as int) =~= lv.push(0));
                    }
                },
                InfixToken::Parenthesis(Parenthesis::Close) => {
                    if expected || levels.len() < 2 {
                        proof {
                            lemma_infix_run_none(s, i + 1);
                        }
                        return false;
                    }
                    let top = levels.pop().unwrap();
                    if top > 0 && cnt <= top {
                        proof {
                            lemma_infix_run_none(s, i + 1);
                        }
                        return false;
                    }
                    cnt = cnt - top;
                    proof {
                        assert(levels@.map_values(|v: usize| v as int) =~= lv.drop_last());
                    }
                },
            }
            i = i + 1;
        }
        proof {
            assert(s.take(n as int) =~= s);
        }
        levels.len() == 1 && cnt >= 1 && cnt - 1 == levels[0]
    }
}

} // verus!
