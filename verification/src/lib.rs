//! A small regular-expression front end: a parser from pattern text to an
//! abstract syntax tree, and a code generator that lowers the tree into a
//! linear instruction program for a backtracking matching machine.

pub mod codegen;
pub mod helper;
pub mod parser;
