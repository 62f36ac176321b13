//! The front end and value runtime of a small embeddable scripting
//! language: a character-level statement and expression parser, a
//! dynamically typed value model with implicit conversions and operator
//! semantics, and a scope and binding layer with shared, mutable, lazily
//! materialized references.

pub mod error;
pub mod expr;
pub mod func;
pub mod lpp;
pub mod num;
pub mod parse;
pub mod text;
pub mod var;
