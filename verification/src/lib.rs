//! An arithmetic expression calculator: a lexer that turns text into typed
//! tokens, a precedence reducer that rewrites the token sequence into a binary
//! expression tree, and an evaluator that walks the tree.
//!
//! The library fixes the grammar, the precedence rules and the order in which
//! operations are applied. The arithmetic itself is supplied by the caller of
//! [`parser::TreeNode::eval`], so that the same tree can be evaluated over any
//! numeric domain.
//!
//! The code is in [`tokeniser`], [`parser`], [`peeker`] and [`text`]. The
//! lexer is specified as a scan of the characters from the left
//! ([`tokeniser::lex`]), the reducer as a sequence of reductions
//! ([`parser::resolve`]). The other modules hold what is proved of the two:
//!
//! - [`lexing`]: blanks are ignored, a text parts where the kind of its
//!   characters changes, a run is one name or one number;
//! - [`acceptance`]: a sequence of tokens has a tree if and only if it is an
//!   expression;
//! - [`reading`]: the tree is that of the usual reading, which [`phrases`]
//!   defines for sequences without parentheses;
//! - [`substitution`] and [`grouping`]: a group stands for its tree, and
//!   parentheses must match;
//! - [`grouped`]: where every operation stands in parentheses of its own,
//!   priorities do not matter;
//! - [`precedence`]: the shortest sequences, one by one;
//! - [`shape`]: the trees are well-formed, and a well-formed tree has a
//!   value;
//! - [`order`]: the tree holds what the tokens hold, in the same order;
//! - [`determinism`]: the same input gives the same result, stage by stage
//!   and from the text to the value.

pub mod acceptance;
pub mod determinism;
pub mod grouped;
pub mod grouping;
pub mod lexing;
pub mod order;
pub mod parser;
pub mod peeker;
pub mod phrases;
pub mod precedence;
pub mod reading;
pub mod shape;
pub mod substitution;
pub mod text;
pub mod tokeniser;
