//! A small query language over JSON documents: a parser that turns query
//! text such as `.a[0].b` or `{"k":.a}` into an abstract syntax tree, and
//! an evaluator that applies the tree to a JSON value, producing a derived
//! JSON value or a structured error.

pub mod parser;
pub mod query;
pub mod value;
