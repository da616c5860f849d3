//! Compile errors.

use vstd::prelude::*;

use crate::text::concat;

verus! {

/// An error from one stage of the compiler.
#[derive(Debug)]
pub enum CompileError {
    Parse { span: core::ops::Range<usize>, message: String },
    Analysis { span: core::ops::Range<usize>, message: String },
    Lowering { message: String },
    Codegen { message: String },
    Transpile { message: String },
    Database { message: String },
    Io { message: String },
}

/// The result of a compiler stage.
pub type ParseResult<T> = Result<T, CompileError>;

impl CompileError {
    /// The message the error carries.
    pub open spec fn spec_message(&self) -> Seq<char> {
        match self {
            CompileError::Parse { message, .. } => message@,
            CompileError::Analysis { message, .. } => message@,
            CompileError::Lowering { message } => message@,
            CompileError::Codegen { message } => message@,
            CompileError::Transpile { message } => message@,
            CompileError::Database { message } => message@,
            CompileError::Io { message } => message@,
        }
    }

    /// How the error is displayed: the stage, then the message.
    pub open spec fn display(&self) -> Seq<char> {
        match self {
            CompileError::Parse { message, .. } => "Parse error: "@ + message@,
            CompileError::Analysis { message, .. } => "Analysis error: "@ + message@,
            CompileError::Lowering { message } => "Lowering error: "@ + message@,
            CompileError::Codegen { message } => "Codegen error: "@ + message@,
            CompileError::Transpile { message } => "Transpile error: "@ + message@,
            CompileError::Database { message } => "Database error: "@ + message@,
            CompileError::Io { message } => "IO error: "@ + message@,
        }
    }

    /// The displayed text of the error.
    pub fn describe(&self) -> (r: String)
        ensures
            r@ == self.display(),
    {
        match self {
            CompileError::Parse { message, .. } => concat("Parse error: ", message.as_str()),
            CompileError::Analysis { message, .. } => concat("Analysis error: ", message.as_str()),
            CompileError::Lowering { message } => concat("Lowering error: ", message.as_str()),
            CompileError::Codegen { message } => concat("Codegen error: ", message.as_str()),
            CompileError::Transpile { message } => concat("Transpile error: ", message.as_str()),
            CompileError::Database { message } => concat("Database error: ", message.as_str()),
            CompileError::Io { message } => concat("IO error: ", message.as_str()),
        }
    }
}

/// A parse error at `span`.
pub fn parse_error(span: core::ops::Range<usize>, message: String) -> (r: CompileError)
    ensures
        r == (CompileError::Parse { span, message }),
{
    CompileError::Parse { span, message }
}

/// An analysis error at `span`.
pub fn analysis_error(span: core::ops::Range<usize>, message: String) -> (r: CompileError)
    ensures
        r == (CompileError::Analysis { span, message }),
{
    CompileError::Analysis { span, message }
}

/// An error while lowering to the intermediate representation.
pub fn lowering_error(message: String) -> (r: CompileError)
    ensures
        r == (CompileError::Lowering { message }),
{
    CompileError::Lowering { message }
}

/// An error while emitting bytecode.
pub fn codegen_error(message: String) -> (r: CompileError)
    ensures
        r == (CompileError::Codegen { message }),
{
    CompileError::Codegen { message }
}

/// An error in the command database.
pub fn database_error(message: String) -> (r: CompileError)
    ensures
        r == (CompileError::Database { message }),
{
    CompileError::Database { message }
}

} // verus!
