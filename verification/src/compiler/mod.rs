//! The `.tri` compiler: parse a component, lower it to a descriptor, or emit Rust.
//!
//! One parse feeds two backends: [`descriptor::lower`] produces a runtime descriptor, and
//! [`codegen::emit`] produces Rust source. Expressions are never evaluated here.
pub mod ast;
pub mod codegen;
pub mod descriptor;
pub mod literal;
pub mod parsed;
pub mod parser;

pub use ast::{Document, Node, ParseError, ParseErrorKind, Span};
pub use parser::parse;
