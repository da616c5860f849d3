//! Compiler pipeline components.

pub mod analysis;
pub mod ast;
pub mod codegen;
pub mod diagnostic;
pub mod ir;
pub mod lexer;
pub mod lowerer;
pub mod macro_condition;
pub mod parser;
pub mod preprocessor;
pub mod sourcemap;
pub mod token;
