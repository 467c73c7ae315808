//! A small Lisp: a reader, a printer, and an evaluator with lexical closures and
//! tail calls that take no stack.
//!
//! Frames live in a [`env::Store`] and are named by [`env::Environment`] handles, so
//! that closures can share them. [`eval::eval`] is specified by the recursive
//! function [`eval::eval_spec`] over the models of values and stores; the laws that
//! relate the parts are proof functions beside the functions they speak of.

pub mod env;
pub mod eval;
pub mod primitives;
pub mod reader;
pub mod repl;
pub mod text;
pub mod types;
