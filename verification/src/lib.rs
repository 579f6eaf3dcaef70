//! A small interpreter for a Lisp-family language: a reader that turns
//! S-expression text into expression trees, an environment of lexical
//! frames, and a tree-walking evaluator with a fixed set of special forms
//! and a registry of built-in callables.
//!
//! Numbers are kept exact: an integer, or a canonical decimal fraction
//! `m * 10^-s` with `m` not divisible by ten.  An arithmetic result is an
//! integer exactly when its mathematical value has no fractional part.

pub mod types;
pub mod numbers;
pub mod parser;
pub mod printer;
pub mod builtin_functions;
pub mod default_env;
pub mod eval;
pub mod runner;
