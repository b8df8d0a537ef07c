//! An evaluator for the pure untyped lambda calculus.
//!
//! - [`term`], [`nameless`], [`alpha`], [`canon`], [`subst`], [`beta`],
//!   [`straight`] and [`cycle`] are the term engine: terms with named
//!   variables, their nameless form, alpha-equivalence, canonical renaming,
//!   substitution without capture, and reduction.
//! - [`lexer`], [`former`], [`parser`], [`denote`], [`compiler`] and [`cu`]
//!   are the front end: from source text to tokens, to a syntax tree, to
//!   terms and definitions.
//! - [`plain`] and [`notation`] read terms in two short notations,
//!   [`ubody`] holds expressions before their names are resolved,
//!   [`caret`] reads programs of such expressions, and [`scope`] with
//!   [`lines`] keeps definitions as text.
//! - [`enc`] and [`ui`] write and read data in Church encodings;
//!   [`args`] and [`settings`] serve an interactive session.

pub mod alpha;
pub mod alphabet;
pub mod args;
pub mod ast;
pub mod beta;
pub mod canon;
pub mod caret;
pub mod compiler;
pub mod cu;
pub mod cycle;
pub mod denote;
pub mod enc;
pub mod error;
pub mod former;
pub mod lexer;
pub mod lines;
pub mod nameless;
pub mod notation;
pub mod parser;
pub mod plain;
pub mod scope;
pub mod settings;
pub mod straight;
pub mod subst;
pub mod term;
pub mod text;
pub mod token;
pub mod ubody;
pub mod ui;

pub use term::{Body, Term, VarId};
