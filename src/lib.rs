//! A small interpreter for a Lisp-like S-expression language: a symbol table
//! that interns names, a reader that turns text into expression trees, and an
//! evaluator with special forms, user closures and native functions.

pub mod symtable;
pub mod parse;
pub mod interpret;
pub mod builtin;
