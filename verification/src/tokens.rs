//! The token alphabet: operators, parentheses, and the two token-stream
//! flavours (infix and postfix) over an opaque predicate payload.

use vstd::prelude::*;

verus! {

/// One of the two binary connectives.  `And` binds tighter than `Or`.
#[derive(PartialEq, Eq, Structural, Copy, Clone, Debug)]
pub enum Operator {
    And,
    Or,
}

/// The precedence rank of an operator, as an unbounded integer for use in
/// contracts.  `And` ranks strictly above `Or`.
pub open spec fn spec_precedence(op: Operator) -> int {
    match op {
        Operator::And => 2,
        Operator::Or => 1,
    }
}

impl Operator {
    /// The precedence rank used by the shunting-yard conversion and by the
    /// parenthesizing reconstruction.
    pub fn precedence(self) -> (rank: u8)
        ensures
            rank == spec_precedence(self),
    {
        match self {
            Operator::And => 2,
            Operator::Or => 1,
        }
    }
}

/// The truth value of combining `left` and `right` with `op`.
pub open spec fn op_apply(op: Operator, left: bool, right: bool) -> bool {
    match op {
        Operator::And => left && right,
        Operator::Or => left || right,
    }
}

/// A grouping symbol; only meaningful inside infix token streams.
#[derive(PartialEq, Eq, Structural, Copy, Clone, Debug)]
pub enum Parenthesis {
    Open,
    Close,
}

/// One position of an infix expression: a parenthesis, an operator, or an
/// opaque predicate payload.
#[derive(Debug, PartialEq, Clone)]
pub enum InfixToken<Predicate> {
    Parenthesis(Parenthesis),
    Operator(Operator),
    Predicate(Predicate),
}

/// One position of a postfix expression: an operator or an opaque predicate
/// payload.  Order alone encodes grouping, so there are no parentheses.
#[derive(Debug, PartialEq, Clone)]
pub enum PostfixToken<Predicate> {
    Operator(Operator),
    Predicate(Predicate),
}

} // verus!
