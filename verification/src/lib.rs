//! A minimal markup-rendering core: style resolution and box layout for a
//! fixed-width character grid.
//!
//! The crate turns a parsed document tree and a parsed stylesheet into a
//! positioned box tree. Parsing of markup and stylesheet text, painting of
//! the finished box tree, and input handling are left to the surrounding
//! program.

pub mod cssom;
pub mod dom;
pub mod layout;
pub mod strmap;
pub mod style;
pub mod text;
pub mod unicode;

pub use cssom::{AttributeSelectorOp, CSSValue, Declaration, Rule, Selector, SimpleSelector, Stylesheet};
