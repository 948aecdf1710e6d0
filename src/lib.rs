//! Dice-notation expressions: a parser from text to a tree of nodes, and a
//! tree-walking evaluator whose roll nodes keep the outcomes they drew.
pub mod ast;
pub mod parser;
