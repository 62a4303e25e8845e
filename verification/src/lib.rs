//! A small engine for boolean predicate expressions.
//!
//! An expression combines opaque predicates with the binary connectives
//! `And` and `Or`.  It can be written in infix form (with parentheses) or in
//! postfix (reverse-Polish) form; the two forms are interconvertible, and a
//! postfix expression can be evaluated against a caller-supplied
//! [`PredicateEvaluator`] that decides each predicate and optionally records
//! a reason for every decision that came out true.

pub use crate::eval::PostfixStackItem;
pub use crate::evaluator::PredicateEvaluator;
pub use crate::infix::InfixExpression;
pub use crate::postfix::PostfixExpression;
pub use crate::tokens::InfixToken;
pub use crate::tokens::Operator;
pub use crate::tokens::Parenthesis;
pub use crate::tokens::PostfixToken;
pub use crate::rpn::RpnExpression;
pub use crate::rpn::RpnOperator;
pub use crate::rpn::RpnPredicateEvaluator;
pub use crate::rpn::RpnToken;

pub mod counts;
pub mod eval;
pub mod evaluator;
pub mod infix;
pub mod laws;
pub mod meaning;
pub mod postfix;
pub mod roundtrip;
pub mod rpn;
pub mod tokens;
pub mod tree;
