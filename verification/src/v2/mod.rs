//! The next-generation justfile engine: shell-style `export`, recipe-body
//! variable assignments that persist across lines, and automatic argument
//! quoting.
pub mod ast;
pub mod cli;
pub mod environment;
pub mod executor;
pub mod error;
pub mod parser;

pub use ast::Justfile;
pub use error::Error;

