//! Builds railroad diagrams for the input grammar of a `macro_rules!` macro
//! and embeds them into the macro's documentation attributes.
//!
//! The pipeline: parse the macro's pattern list into a rule tree, strip
//! internal-only alternatives, fold common prefixes and suffixes of sibling
//! alternatives into shared paths, normalize the tree, render it as an SVG
//! document, and encode that document as a `data:` URI payload that a doc
//! attribute can carry.

pub mod encode;
pub mod label;
pub mod laws;
pub mod lexer;
pub mod parser;
pub mod pipeline;
pub mod render;
pub mod splice;
pub mod lowering;
pub mod tree;
