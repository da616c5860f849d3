//! Compiler diagnostics: errors and warnings.

pub mod error;
pub mod warning;
