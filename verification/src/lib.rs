//! The core engine of the crulz macro language: a text with macro calls in
//! it is parsed into a tree, and the tree is evaluated in rounds until
//! nothing changes any more.
//!
//! - [`ast`] holds the tree and its mathematical model, over which every
//!   contract of this crate is stated.
//! - [`mangle`] and [`simplify`] are the tree algebra: writing a tree out,
//!   measuring it, putting arguments in the place of parameters, and
//!   bringing it into the normal form that [`normal`] describes.
//! - [`parser`] reads bytes into nodes, or reports where it failed.
//! - [`context`] and [`interp`] evaluate; [`semantics`] says what evaluation
//!   means, as a function on models.
//! - [`laws`] and [`reparse`] state what holds of all this: of applying and
//!   binding arguments, of evaluation as a function, and of parsing what
//!   was written out.
//! - [`lexer`], [`llparser`] and [`hlparser`] are a second, simpler way
//!   from bytes to nodes, by tokens and sections; it knows parentheses and
//!   the escape byte only. [`sharpen`] holds the containers that it builds
//!   on.
//! - [`decimal`] writes numbers and says how the `atoi` crate reads them.

pub mod ast;
pub mod context;
pub mod decimal;
pub mod hlparser;
pub mod interp;
pub mod laws;
pub mod lexer;
pub mod llparser;
pub mod mangle;
pub mod normal;
pub mod parser;
pub mod reparse;
pub mod semantics;
pub mod seqs;
pub mod sharpen;
pub mod simplify;
