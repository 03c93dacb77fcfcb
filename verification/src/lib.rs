//! cadernislang: front end, static budget analysis, runtime mechanics and interpreter.

pub mod ast;
pub mod budget;
pub mod codegen;
pub mod config;
pub mod driver;
pub mod interp;
pub mod layers;
pub mod lexer;
pub mod lsp;
pub mod parser;
pub mod patch;
pub mod runtime;
pub mod sema;
pub mod text;
pub mod verdicts;
