//! Parser infrastructure: grammars declared as composable expressions are
//! compiled into an indexed rule table and checked for decidability, and parse
//! results are stored in a content-addressed tree.

pub mod bnf;
pub mod decide;
pub mod grammar;
pub mod grammar_dsl;
pub mod normalize;
pub mod nullable;
pub mod parser;
pub mod tree;
pub mod utils;
pub mod words;
