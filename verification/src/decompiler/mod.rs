//! Decompiler components: binary formats and their errors.

pub mod decomp_error;
pub mod disassembler;
pub mod levelscript;
pub mod ir_to_source;
