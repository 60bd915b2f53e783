//! A compiler from a small S-expression language to bytecode for a
//! stack-based virtual machine: a lexer, a recursive-descent parser, and a
//! code generator that lowers arithmetic, comparisons and structured control
//! flow into a hex-encoded instruction stream.

pub mod ast;
pub mod compiler;
pub mod encoding;
pub mod laws;
pub mod lexer;
pub mod parser;
pub mod token;
