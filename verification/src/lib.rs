//! A small interpreter for a parenthesis-delimited, S-expression-style
//! scripting language: numbers, strings, booleans, nil, lists, identifiers
//! and function-call expressions of the form `(name arg...)`.
//!
//! The crate is organised leaf to root:
//! - [`number`]: exact decimal numbers, the language's numeric tower;
//! - [`errors`]: the parse-time and run-time error taxonomies;
//! - [`entities`]: the entity tree and its ghost model;
//! - [`render`]: display text and source text of entities;
//! - [`utils`]: backslash-escape handling for printed text;
//! - [`scope`]: the program-wide variable and function binding table;
//! - [`parser`]: source text to entity trees, with a ghost parser;
//! - [`builtins`]: the fixed catalogue of primitive operations;
//! - [`executer`]: the evaluator, verified against a ghost interpreter;
//! - [`laws`]: proofs of the library-wide properties.

pub mod builtins;
pub mod entities;
pub mod errors;
pub mod executer;
pub mod laws;
pub mod number;
pub mod parser;
pub mod render;
pub mod scope;
pub mod utils;
