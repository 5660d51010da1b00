//! The front end of the nano compiler: a lexer and a grammar interpreter.
//!
//! A source text is cut into tokens by prioritized matchers (`tokenizer`), and the tokens
//! are built into a tree by interpreting a grammar that is plain data (`parser`). What
//! both compute is stated over mathematical models: `lexing` for the scan, `matching` for
//! the interpreter. `scan_laws` and `match_laws` hold what follows for every input.
//! `grammar` has the data types with their views, `nano_grammar` the tables of nano
//! itself, and `text` the one call into the `regex` crate that the scan rests on.

pub mod grammar;
pub mod lexing;
pub mod match_laws;
pub mod matching;
pub mod nano_grammar;
pub mod parser;
pub mod scan_laws;
pub mod text;
pub mod tokenizer;
