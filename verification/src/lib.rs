//! A compiler for a minimal language: one function `main` of type `int`
//! whose body returns a unary expression over integer literals.
//!
//! The stages follow one another: [`lexer`] turns text into tokens,
//! [`parser`] turns tokens into a syntax tree, [`ir`] turns the tree into
//! operations of a stack machine and those into RISC-V assembly text.
//! [`visit`] evaluates a tree, [`compiler`] runs the stages in a row, and
//! [`text`] holds the decimal notation that scanner and emitter share.

pub mod compiler;
pub mod ir;
pub mod lexer;
pub mod parser;
pub mod text;
pub mod visit;

pub use compiler::{compile, CompileError};
pub use ir::{to_assembly, MiniDecafIR, MiniDecafIRGenerator};
pub use lexer::{MiniDecafTokens, ScanError, Scanner};
pub use parser::{
    Expression, Function, MiniDecafParser, ParserError, Program, Statement, Unary,
};
pub use visit::{expression_visitor, function_visitor, program_visitor, statement_visitor};
