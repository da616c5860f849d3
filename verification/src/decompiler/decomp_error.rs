//! Errors of the decompiler.

use vstd::prelude::*;

use crate::text::{concat, concat3, hex_padded, nat_to_decimal, u64_to_hex_padded, usize_to_string};

verus! {

/// Why a binary could not be decompiled.
#[derive(Debug)]
pub enum DecompileError {
    /// Invalid binary format (bad magic, truncated, etc.)
    InvalidFormat { message: String },
    /// Unknown opcode encountered during disassembly
    UnknownOpcode { opcode: u16, offset: usize },
    /// Invalid jump table structure
    InvalidJumpTable { message: String, offset: usize },
    /// Offset out of bounds
    OutOfBounds { offset: usize, length: usize },
    /// Database lookup failed
    Database { message: String },
    /// IO error (file not found, etc.)
    Io { message: String },
}

/// The result of a decompiler stage.
pub type DecompileResult<T> = Result<T, DecompileError>;

/// `0x` and at least four upper-case hexadecimal digits.
pub open spec fn hex4(n: nat) -> Seq<char> {
    "0x"@ + hex_padded(n, 4)
}

impl DecompileError {
    /// How the error is displayed.
    pub open spec fn display(&self) -> Seq<char> {
        match self {
            DecompileError::InvalidFormat { message } => "Invalid binary format: "@ + message@,
            DecompileError::UnknownOpcode { opcode, offset } => "Unknown opcode "@ + hex4(
                *opcode as nat,
            ) + " at offset "@ + hex4(*offset as nat),
            DecompileError::InvalidJumpTable { message, offset } => "Invalid jump table at "@
                + hex4(*offset as nat) + ": "@ + message@,
            DecompileError::OutOfBounds { offset, length } => "Offset "@ + hex4(*offset as nat)
                + " out of bounds (file length: "@ + nat_to_decimal(*length as nat) + ")"@,
            DecompileError::Database { message } => "Database error: "@ + message@,
            DecompileError::Io { message } => "IO error: "@ + message@,
        }
    }

    /// The displayed text of the error.
    pub fn describe(&self) -> (r: String)
        ensures
            r@ == self.display(),
    {
        match self {
            DecompileError::InvalidFormat { message } => concat(
                "Invalid binary format: ",
                message.as_str(),
            ),
            DecompileError::UnknownOpcode { opcode, offset } => {
                let a = hex4_string(*opcode as u64);
                let b = hex4_string(*offset as u64);
                let head = concat3("Unknown opcode ", a.as_str(), " at offset ");
                concat(head.as_str(), b.as_str())
            },
            DecompileError::InvalidJumpTable { message, offset } => {
                let a = hex4_string(*offset as u64);
                let head = concat3("Invalid jump table at ", a.as_str(), ": ");
                concat(head.as_str(), message.as_str())
            },
            DecompileError::OutOfBounds { offset, length } => {
                let a = hex4_string(*offset as u64);
                let n = usize_to_string(*length);
                let head = concat3("Offset ", a.as_str(), " out of bounds (file length: ");
                concat3(head.as_str(), n.as_str(), ")")
            },
            DecompileError::Database { message } => concat("Database error: ", message.as_str()),
            DecompileError::Io { message } => concat("IO error: ", message.as_str()),
        }
    }
}

/// `0x` and at least four upper-case hexadecimal digits of `n`.
pub fn hex4_string(n: u64) -> (r: String)
    ensures
        r@ == hex4(n as nat),
{
    let digits = u64_to_hex_padded(n, 4);
    concat("0x", digits.as_str())
}

/// An invalid-format error with `message`.
pub fn invalid_format(message: String) -> (r: DecompileError)
    ensures
        r == (DecompileError::InvalidFormat { message }),
{
    DecompileError::InvalidFormat { message }
}

} // verus!
