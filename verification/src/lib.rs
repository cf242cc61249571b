//! A reader for a small Lisp-family surface syntax: characters become tokens,
//! tokens become delimiter-structured forms, forms become typed expressions.

pub mod interpreter;
pub mod parser;
pub mod runtime;
