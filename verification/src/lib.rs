//! Infix-to-postfix conversion for arithmetic formulas.
//!
//! A caller describes its lexical categories in a table of [`TokenType`]
//! values. The scanner finds every occurrence of every category in a formula,
//! the converter reorders the occurrences into postfix order by precedence,
//! associativity and grouping, and the tree builder folds a postfix sequence
//! into a binary expression tree.
pub mod associativity;
pub mod closed_form;
pub mod determinism;
pub mod invariants;
pub mod order;
pub mod pattern;
pub mod rpn;
pub mod scan;
pub mod token;
pub mod tree;

pub use order::sort_by_start;
pub use scan::{merge, scan, ScanError};
pub use token::{Span, Token, TokenType};
pub use tree::{ASTNode, SyntaxError, AST};
