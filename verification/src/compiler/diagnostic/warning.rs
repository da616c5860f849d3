//! Compile warnings.

use vstd::prelude::*;

use crate::text::{concat3, nat_to_decimal, u64_to_string, usize_to_string};

verus! {

/// A problem that does not stop compilation.
#[derive(Debug, Clone)]
pub enum CompileWarning {
    UnusedAlias { name: String, span: core::ops::Range<usize> },
    ShadowedAlias {
        name: String,
        span: core::ops::Range<usize>,
        previous_span: core::ops::Range<usize>,
    },
    /// A slot ID is absent from an otherwise-contiguous run of public
    /// scripts; the emitter repeats the previous script's pointer.
    MissingSlot { slot: u32, span: core::ops::Range<usize> },
    /// A segment of a message string is wider than the dialog allows.
    MessageLineTooLong { span: core::ops::Range<usize>, line_index: usize },
    /// A database variant condition could not be evaluated at compile time;
    /// the default variant was used.
    VariantConditionUnresolvable {
        command: String,
        condition: String,
        span: core::ops::Range<usize>,
    },
}

impl CompileWarning {
    /// The span the warning points at.
    pub open spec fn spec_span(&self) -> core::ops::Range<usize> {
        match self {
            CompileWarning::UnusedAlias { span, .. } => *span,
            CompileWarning::ShadowedAlias { span, .. } => *span,
            CompileWarning::MissingSlot { span, .. } => *span,
            CompileWarning::MessageLineTooLong { span, .. } => *span,
            CompileWarning::VariantConditionUnresolvable { span, .. } => *span,
        }
    }

    /// The text of the warning.
    pub open spec fn spec_message(&self) -> Seq<char> {
        match self {
            CompileWarning::UnusedAlias { name, .. } => "Alias '"@ + name@ + "' is never used"@,
            CompileWarning::ShadowedAlias { name, .. } => "Alias '"@ + name@
                + "' shadows a previous alias definition"@,
            CompileWarning::MissingSlot { slot, .. } => "Script slot #"@ + nat_to_decimal(
                *slot as nat,
            )
                + " is empty; the next available script's pointer will be reused. Did you forget a header?"@,
            CompileWarning::MessageLineTooLong { line_index, .. } => "Message line "@
                + nat_to_decimal(*line_index as nat)
                + " exceeds the maximum dialog width — add explicit line breaks or wrap with format()"@,
            CompileWarning::VariantConditionUnresolvable { command, condition, .. } =>
                "Could not evaluate variant condition '"@ + condition@ + "' for command '"@
                + command@
                + "' at compile time; the default variant will be used and the output may be incorrect"@,
        }
    }

    /// The span the warning points at.
    pub fn span(&self) -> (r: core::ops::Range<usize>)
        ensures
            r.start == self.spec_span().start,
            r.end == self.spec_span().end,
    {
        match self {
            CompileWarning::UnusedAlias { span, .. } => span.start..span.end,
            CompileWarning::ShadowedAlias { span, .. } => span.start..span.end,
            CompileWarning::MissingSlot { span, .. } => span.start..span.end,
            CompileWarning::MessageLineTooLong { span, .. } => span.start..span.end,
            CompileWarning::VariantConditionUnresolvable { span, .. } => span.start..span.end,
        }
    }

    /// The text of the warning.
    pub fn message(&self) -> (r: String)
        ensures
            r@ == self.spec_message(),
    {
        match self {
            CompileWarning::UnusedAlias { name, .. } => concat3(
                "Alias '",
                name.as_str(),
                "' is never used",
            ),
            CompileWarning::ShadowedAlias { name, .. } => concat3(
                "Alias '",
                name.as_str(),
                "' shadows a previous alias definition",
            ),
            CompileWarning::MissingSlot { slot, .. } => {
                let n = u64_to_string(*slot as u64);
                concat3(
                    "Script slot #",
                    n.as_str(),
                    " is empty; the next available script's pointer will be reused. Did you forget a header?",
                )
            },
            CompileWarning::MessageLineTooLong { line_index, .. } => {
                let n = usize_to_string(*line_index);
                concat3(
                    "Message line ",
                    n.as_str(),
                    " exceeds the maximum dialog width — add explicit line breaks or wrap with format()",
                )
            },
            CompileWarning::VariantConditionUnresolvable { command, condition, .. } => {
                let a = concat3("Could not evaluate variant condition '", condition.as_str(), "' for command '");
                concat3(
                    a.as_str(),
                    command.as_str(),
                    "' at compile time; the default variant will be used and the output may be incorrect",
                )
            },
        }
    }
}

} // verus!
