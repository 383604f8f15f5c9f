//! Domain-free formula language: assignment blocks, scalar `$params`, bare
//! property variables, arithmetic and comparison operators and a fixed set of
//! numeric functions. This module holds the front end (lexing, parsing,
//! dependency analysis and evaluation order); evaluating the numbers is left
//! to the caller.

pub mod ast;
pub mod lexer;
pub mod parser;
pub mod assignment;
pub mod order;
pub mod block;
pub mod calls;
