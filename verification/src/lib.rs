//! A miniature compiler front end for one-line arithmetic expressions.
//!
//! A line of text is scanned into tokens, parsed into a syntax tree, folded
//! into a maximally shared expression graph and finally lowered to a small
//! three-address function body.  Every stage is a pure function of the
//! previous stage's output, and every stage carries a machine-checked
//! contract.

pub mod dag;
pub mod driver;
pub mod grammar;
pub mod llvm;
pub mod parser;
pub mod scanner;
pub mod semantics;
pub mod text;
