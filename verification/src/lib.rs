//! A verified HTML parser core: a character-driven tokenizer, an
//! insertion-mode tree builder, an index-addressed arena tree, and the
//! line-oriented reader for tree-construction test files.
//!
//! Input is a sequence of already-decoded code points; it flows one way,
//! characters to tokens to tree edits.  The behaviour of each state and
//! each insertion mode is written down as a specification-level transition
//! function, and the executable machines are proved to follow it exactly.

pub mod tokenizer;
pub mod tree;
pub mod tree_builder;
pub mod tester;
