use rotom::decompiler::decomp_error::DecompileError;

#[test]
fn display_formats_all_variants() {
    assert_eq!(
        DecompileError::InvalidFormat {
            message: "too short".to_string(),
        }
        .describe(),
        "Invalid binary format: too short"
    );
    assert_eq!(
        DecompileError::UnknownOpcode {
            opcode: 0x1234,
            offset: 0x20,
        }
        .describe(),
        "Unknown opcode 0x1234 at offset 0x0020"
    );
    assert_eq!(
        DecompileError::InvalidJumpTable {
            message: "bad pointer".to_string(),
            offset: 0x10,
        }
        .describe(),
        "Invalid jump table at 0x0010: bad pointer"
    );
    assert_eq!(
        DecompileError::OutOfBounds {
            offset: 0x30,
            length: 16,
        }
        .describe(),
        "Offset 0x0030 out of bounds (file length: 16)"
    );
    assert_eq!(
        DecompileError::Database {
            message: "missing opcode".to_string(),
        }
        .describe(),
        "Database error: missing opcode"
    );
    assert_eq!(
        DecompileError::Io {
            message: std::io::Error::other("disk").to_string(),
        }
        .describe(),
        "IO error: disk"
    );
}
