//! A library for parsing and manipulating context-free grammars written in
//! several dialects of Extended Backus-Naur Form (EBNF).
//!
//! The library turns textual input into a typed, spanned syntax tree of EBNF
//! expressions ([`Expr`]), a production rule ([`Rule`]), or a whole grammar
//! ([`Grammar`]), together with structured diagnostics for malformed input.
//!
//! Parsing happens in three layers: a lexer that turns UTF-8 text into spanned
//! tokens, a shift/reduce engine that builds trees of [`Expr`] nodes by
//! applying a fixed set of pattern-based reduction rules over the shape of the
//! parse stack, and a post-parse simplifier that rewrites each tree into a
//! canonical form. Every layer carries a full functional specification, and
//! the stated invariants of the output trees are proved.

pub mod display;
pub mod error;
pub mod expr;
pub mod laws;
pub mod lexer;
pub mod parser;
pub mod rule;
pub mod simplification;
pub mod span;
pub mod token;

pub use crate::error::EbnfError;
pub use crate::error::FailureReason;
pub use crate::expr::Expr;
pub use crate::expr::Operator;
pub use crate::rule::Grammar;
pub use crate::rule::Rule;
pub use crate::span::Span;
pub use crate::token::Token;
pub use crate::token::TokenPayload;
