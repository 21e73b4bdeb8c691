//! A compiler front end for Datalog with negation and explicit `.iterate`
//! blocks, verified with Verus.
//!
//! Source text goes through four stages, each with its contracts:
//! - [`lexer`]: characters to positioned [`token::Token`]s; every token is
//!   a lexeme of the source, spans never go backwards, `next_token` fails
//!   exactly on the positions that `lexer::lex_error_at` names, and
//!   `tokenize` succeeds exactly when no token it reaches fails.
//! - [`parser`]: tokens to a syntax tree ([`ast`]); every node re-spells the
//!   tokens it was read from, expressions follow the precedence and left
//!   associativity of the grammar, and the parser succeeds on every
//!   expression the grammar derives and on every program made of
//!   directives, facts, rules and iteration blocks (with expression terms
//!   and conditions).
//! - [`validator`]: the relation dependency graph ([`graph`]), its strongly
//!   connected components, and the check that recursive rules stand in
//!   `.iterate` blocks.
//! - [`planner`]: the components in topological order, grouped into strata.
//!
//! [`laws`] proves the properties that relate these stages, and
//! [`diagnostics`] renders validation errors in place in the source.

use vstd::prelude::*;

pub mod span;
pub mod source;
pub mod token;
pub mod lexer;
pub mod ast;
pub mod parser;
pub mod graph;
pub mod validator;
pub mod planner;
pub mod laws;
pub mod export;
pub mod diagnostics;

verus! {

} // verus!
