use rotom::compiler::ast::FunctionHeader;
use rotom::compiler::codegen::{Emitter, JUMP_TABLE_END_MARKER};
use rotom::compiler::ir::{Arg, IrAction, IrFunction, IrOpcode, TopLevelItem};
use rotom::database::{Command, CommandType, DatabaseMeta, DatabaseV2, ParamDef, ParamType};

fn command(cmd_type: CommandType, id: u16, params: Vec<ParamDef>) -> Command {
    Command {
        cmd_type,
        id: Some(id),
        legacy_name: None,
        description: None,
        params,
        variants: None,
        expansion: None,
    }
}

fn param(name: &str, param_type: ParamType) -> ParamDef {
    ParamDef {
        name: name.to_string(),
        param_type,
        const_value: None,
        default: None,
        optional: false,
    }
}

/// A small database with the Platinum opcodes these tests use.
fn create_test_db() -> &'static DatabaseV2 {
    let mut commands = Vec::new();
    for (name, id) in [
        ("FaceNorth", 0u16),
        ("FaceSouth", 1),
        ("FaceWest", 2),
        ("FaceEast", 3),
        ("WalkNormalSouth", 13),
        ("Delay8", 63),
        ("EndMovement", 0xFE),
    ] {
        commands.push((name.to_string(), command(CommandType::Movement, id, Vec::new())));
    }
    commands.push(("End".to_string(), command(CommandType::ScriptCmd, 0x02, Vec::new())));
    commands.push(("Return".to_string(), command(CommandType::ScriptCmd, 0x1B, Vec::new())));
    commands.push((
        "Jump".to_string(),
        command(
            CommandType::ScriptCmd,
            0x16,
            vec![param("relative_jump", ParamType::U32)],
        ),
    ));
    commands.push((
        "Message".to_string(),
        command(CommandType::ScriptCmd, 0x2C, vec![param("message_id", ParamType::U8)]),
    ));
    let db = DatabaseV2 {
        meta: DatabaseMeta {
            version: "platinum".to_string(),
            generated_at: None,
            generated_from: None,
        },
        commands,
        sounds: Vec::new(),
        comparison_operators: Vec::new(),
        overworld_directions: Vec::new(),
        special_overworlds: Vec::new(),
    };
    Box::leak(Box::new(db))
}

#[test]
fn test_emit_u8() {
    let db = create_test_db();
    let mut emitter = Emitter::new(db);

    emitter.emit_u8(0x42);

    assert_eq!(*emitter.output(), vec![0x42]);
    assert_eq!(emitter.pc(), 1);
}

#[test]
fn test_emit_u16() {
    let db = create_test_db();
    let mut emitter = Emitter::new(db);

    emitter.emit_u16(0x1234);

    assert_eq!(*emitter.output(), vec![0x34, 0x12]); // Little endian
    assert_eq!(emitter.pc(), 2);
}

#[test]
fn test_emit_u32() {
    let db = create_test_db();
    let mut emitter = Emitter::new(db);

    emitter.emit_u32(0x1234_5678);

    assert_eq!(*emitter.output(), vec![0x78, 0x56, 0x34, 0x12]); // Little endian
    assert_eq!(emitter.pc(), 4);
}

#[test]
fn test_emit_simple_movement() {
    let db = create_test_db();
    let mut emitter = Emitter::new(db);

    // Emit a simple movement: FaceNorth (opcode 0) with param 1
    emitter.emit_u16(0); // opcode for FaceNorth
    emitter.emit_u16(1); // param

    assert_eq!(emitter.output().len(), 4);
    assert_eq!(*emitter.output(), vec![0x00, 0x00, 0x01, 0x00]);
}

#[test]
fn test_emit_movement_with_custom_param() {
    let db = create_test_db();
    let mut emitter = Emitter::new(db);

    // Emit a movement with custom parameter: Delay8 (opcode 63) with param 5
    emitter.emit_u16(63); // opcode for Delay8
    emitter.emit_u16(5); // param

    assert_eq!(emitter.output().len(), 4);
    assert_eq!(*emitter.output(), vec![0x3F, 0x00, 0x05, 0x00]);
}

#[test]
fn test_emit_end_movement() {
    let db = create_test_db();
    let mut emitter = Emitter::new(db);

    // Emit EndMovement (opcode 0xFE) with param 0
    emitter.emit_u16(0xFE);
    emitter.emit_u16(0);

    assert_eq!(emitter.output().len(), 4);
    assert_eq!(*emitter.output(), vec![0xFE, 0x00, 0x00, 0x00]);
}

#[test]
fn test_emit_sequence() {
    let db = create_test_db();
    let mut emitter = Emitter::new(db);

    // Emit a sequence of movements
    emitter.emit_u16(0); // FaceNorth
    emitter.emit_u16(1);
    emitter.emit_u16(1); // FaceSouth
    emitter.emit_u16(1);
    emitter.emit_u16(2); // FaceEast
    emitter.emit_u16(1);

    assert_eq!(emitter.output().len(), 12);
    assert_eq!(emitter.pc(), 12);
}

#[test]
fn test_emit_ir_movement() {
    let db = create_test_db();
    let mut emitter = Emitter::new(db);

    // Create a simple IR movement action
    let ir_action = IrAction {
        name: "TestAction".to_string(),
        instructions: vec![
            IrOpcode::Command {
                name: "FaceNorth".to_string(),
                args: vec![],
            },
            IrOpcode::Command {
                name: "WalkNormalSouth".to_string(),
                args: vec![Arg::Value(3)],
            },
            IrOpcode::Command {
                name: "EndMovement".to_string(),
                args: vec![],
            },
        ],
    };

    // Emit the action using the available method
    for op in &ir_action.instructions {
        let result = emitter.emit_movement(op);
        assert!(result.is_ok());
    }

    // FaceNorth(1) + WalkNormalSouth(3) + EndMovement(0) = 3 movements * 4 bytes each = 12 bytes
    assert_eq!(emitter.output().len(), 12);
}

#[test]
fn test_emit_ir_function_with_movements() {
    let db = create_test_db();
    let mut emitter = Emitter::new(db);

    // Create a simple IR script with movements using real movement names
    let ir_func = IrFunction {
        headers: vec![FunctionHeader {
            name: "TestFunc".to_string(),
            id: Some(1),
            is_public: true,
        }],
        instructions: vec![
            IrOpcode::Command {
                name: "FaceNorth".to_string(),
                args: vec![],
            },
            IrOpcode::Command {
                name: "EndMovement".to_string(),
                args: vec![],
            },
        ],
    };

    // Emit the function's instructions using emit_movement (which handles no-arg movements)
    for op in &ir_func.instructions {
        let result = emitter.emit_movement(op);
        assert!(result.is_ok(), "Failed to emit {:?}: {:?}", op, result);
    }

    // FaceNorth(1) + EndMovement(0) = 2 movements * 4 bytes each = 8 bytes
    assert_eq!(emitter.output().len(), 8);
}

#[test]
fn test_emit_multiple_functions() {
    let db = create_test_db();
    let mut emitter = Emitter::new(db);

    // Create multiple IR functions using real movement names
    let func1_instructions = vec![
        IrOpcode::Command {
            name: "FaceNorth".to_string(),
            args: vec![],
        },
        IrOpcode::Command {
            name: "EndMovement".to_string(),
            args: vec![],
        },
    ];

    let func2_instructions = vec![
        IrOpcode::Command {
            name: "FaceSouth".to_string(),
            args: vec![],
        },
        IrOpcode::Command {
            name: "EndMovement".to_string(),
            args: vec![],
        },
    ];

    for op in &func1_instructions {
        emitter.emit_movement(op).unwrap();
    }
    for op in &func2_instructions {
        emitter.emit_movement(op).unwrap();
    }

    // Each script should have 2 movements * 4 bytes = 8 bytes
    assert_eq!(emitter.output().len(), 16);
}

#[test]
fn test_pc_increments_correctly() {
    let db = create_test_db();
    let mut emitter = Emitter::new(db);

    assert_eq!(emitter.pc(), 0);

    emitter.emit_u8(0x10);
    assert_eq!(emitter.pc(), 1);

    emitter.emit_u16(0x20);
    assert_eq!(emitter.pc(), 3);

    emitter.emit_u8(0x30);
    assert_eq!(emitter.pc(), 4);

    emitter.emit_u32(0x40);
    assert_eq!(emitter.pc(), 8);
}

#[test]
fn test_output_accumulation() {
    let db = create_test_db();
    let mut emitter = Emitter::new(db);

    emitter.emit_u8(0xAA);
    emitter.emit_u8(0xBB);
    emitter.emit_u16(0xCCDD);

    assert_eq!(*emitter.output(), vec![0xAA, 0xBB, 0xDD, 0xCC]);
}

#[test]
fn test_empty_action() {
    let db = create_test_db();
    let mut emitter = Emitter::new(db);

    // Create an empty IR action
    let ir_action = IrAction {
        name: "EmptyAction".to_string(),
        instructions: vec![],
    };

    // Emit the empty action (should do nothing)
    for op in &ir_action.instructions {
        emitter.emit_movement(op).unwrap();
    }

    // Empty action should have no output
    assert_eq!(emitter.output().len(), 0);
}

#[test]
fn test_action_with_many_movements() {
    let db = create_test_db();
    let mut emitter = Emitter::new(db);

    // Create an action with many movements using real movement names
    let instructions = vec![
        IrOpcode::Command {
            name: "FaceNorth".to_string(),
            args: vec![],
        },
        IrOpcode::Command {
            name: "FaceSouth".to_string(),
            args: vec![],
        },
        IrOpcode::Command {
            name: "FaceEast".to_string(),
            args: vec![],
        },
        IrOpcode::Command {
            name: "FaceWest".to_string(),
            args: vec![],
        },
        IrOpcode::Command {
            name: "FaceNorth".to_string(),
            args: vec![],
        },
        IrOpcode::Command {
            name: "FaceSouth".to_string(),
            args: vec![],
        },
        IrOpcode::Command {
            name: "FaceEast".to_string(),
            args: vec![],
        },
        IrOpcode::Command {
            name: "FaceWest".to_string(),
            args: vec![],
        },
        IrOpcode::Command {
            name: "FaceNorth".to_string(),
            args: vec![],
        },
        IrOpcode::Command {
            name: "FaceSouth".to_string(),
            args: vec![],
        },
        IrOpcode::Command {
            name: "EndMovement".to_string(),
            args: vec![],
        },
    ];

    // Emit all movements
    for op in &instructions {
        emitter.emit_movement(op).unwrap();
    }

    // 11 movements * 4 bytes = 44 bytes
    assert_eq!(emitter.output().len(), 44);
}

#[test]
fn test_emit_script_command() {
    let db = create_test_db();
    let mut emitter = Emitter::new(db);

    // Test emitting a simple script command: End (opcode 0x02, no params)
    let end_cmd = db
        .get_command("End")
        .expect("End command should exist in DB");
    emitter.emit_command("End", end_cmd, &[]).unwrap();

    // End is opcode 0x02, no parameters = 2 bytes
    assert_eq!(emitter.output().len(), 2);
    assert_eq!(*emitter.output(), vec![0x02, 0x00]); // Little endian opcode
}

#[test]
fn test_emit_script_command_with_params() {
    let db = create_test_db();
    let mut emitter = Emitter::new(db);

    // Test emitting Message command (opcode 44 with 1 u8 parameter)
    let message_cmd = db
        .get_command("Message")
        .expect("Message command should exist in DB");
    emitter
        .emit_command("Message", message_cmd, &[Arg::Value(42)])
        .unwrap();

    // Message is opcode (2 bytes) + 1 u8 param (1 byte) = 3 bytes total
    assert_eq!(
        emitter.output().len(),
        3,
        "Message command should be 3 bytes (opcode + u8 param)"
    );
    // Check opcode is 44 (0x2C) in little endian
    assert_eq!(emitter.output()[0], 0x2C);
    assert_eq!(emitter.output()[1], 0x00);
    // Check param value
    assert_eq!(emitter.output()[2], 42);
}

#[test]
fn test_emit_script_file_jump_table() {

    let db = create_test_db();
    let mut emitter = Emitter::new(db);

    // Create a script with two public functions
    let items = vec![
        TopLevelItem::Function(IrFunction {
            headers: vec![FunctionHeader {
                name: "Func0".to_string(),
                id: Some(1),
                is_public: true,
            }],
            instructions: vec![IrOpcode::Command {
                name: "End".to_string(),
                args: vec![],
            }],
        }),
        TopLevelItem::Function(IrFunction {
            headers: vec![FunctionHeader {
                name: "Func1".to_string(),
                id: Some(2),
                is_public: true,
            }],
            instructions: vec![IrOpcode::Command {
                name: "End".to_string(),
                args: vec![],
            }],
        }),
    ];

    let output = emitter.emit_script_file(&items, 1).unwrap();

    // Jump table: 2 entries * 4 bytes = 8 bytes, plus 2-byte marker
    // Marker is 0xFD13 = [0x13, 0xFD]
    assert!(output.len() >= 10, "Should have jump table + marker + code");

    // Check for the end marker (0xFD13)
    assert_eq!(
        &output[8..10],
        &JUMP_TABLE_END_MARKER,
        "Should have jump table end marker at offset 8"
    );
}

#[test]
fn test_emit_script_file_label_relocation() {
    let db = create_test_db();
    let mut emitter = Emitter::new(db);

    // Create a script with a jump to a label
    let items = vec![TopLevelItem::Function(IrFunction {
        headers: vec![FunctionHeader {
            name: "TestFunc".to_string(),
            id: Some(1),
            is_public: true,
        }],
        instructions: vec![
            IrOpcode::Command {
                name: "Jump".to_string(),
                args: vec![Arg::Pointer(".target".to_string())],
            },
            IrOpcode::Command {
                name: "End".to_string(),
                args: vec![],
            },
            IrOpcode::Label(".target".to_string()),
            IrOpcode::Command {
                name: "Return".to_string(),
                args: vec![],
            },
        ],
    })];

    let output = emitter.emit_script_file(&items, 1).unwrap();

    // Should compile successfully with the label reference resolved
    assert!(
        output.len() > 10,
        "Should have generated code with jump and label"
    );

    // The Jump instruction should have a relative offset to the label
    // We can't easily verify the exact offset without knowing the opcode sizes,
    // but we can verify the output is non-zero (relocation was applied)
}

#[test]
fn test_emit_script_file_action_alignment() {
    let db = create_test_db();
    let mut emitter = Emitter::new(db);

    // Create a script followed by an action
    // The action should be 4-byte aligned
    let items = vec![
        TopLevelItem::Function(IrFunction {
            headers: vec![FunctionHeader {
                name: "TestFunc".to_string(),
                id: Some(1),
                is_public: true,
            }],
            instructions: vec![
                // Just End, which is 2 bytes
                IrOpcode::Command {
                    name: "End".to_string(),
                    args: vec![],
                },
            ],
        }),
        TopLevelItem::Action(IrAction {
            name: "TestAction".to_string(),
            instructions: vec![
                IrOpcode::Command {
                    name: "FaceNorth".to_string(),
                    args: vec![],
                },
                IrOpcode::Command {
                    name: "EndMovement".to_string(),
                    args: vec![],
                },
            ],
        }),
    ];

    let output = emitter.emit_script_file(&items, 1).unwrap();

    // Jump table: 1 entry (4 bytes) + marker (2 bytes) = 6 bytes
    // Function: End = 2 bytes, but at offset 6, so script starts at 6
    // After function: offset 8, which is already 4-byte aligned
    // But if script body was 3 bytes, action would need padding

    // The action offset should be in the action_offsets map and should be 4-byte aligned
    // We can verify output length is correct
    assert!(
        output.len() >= 14,
        "Should have jump table + script + aligned action"
    );

    // Output length should be even (final alignment)
    assert_eq!(output.len() % 2, 0, "Final output should be 2-byte aligned");
}

#[test]
fn test_emit_stacked_headers_jump_table() {
    let db = create_test_db();
    let mut emitter = Emitter::new(db);

    // Create an IR script with two headers
    let ir_func = IrFunction {
        headers: vec![
            FunctionHeader {
                name: "TestFunc".to_string(),
                id: Some(1),
                is_public: true,
            },
            FunctionHeader {
                name: "TestFunc".to_string(),
                id: Some(2),
                is_public: true,
            },
        ],
        instructions: vec![IrOpcode::Command {
            name: "End".to_string(),
            args: vec![],
        }],
    };

    let items = vec![TopLevelItem::Function(ir_func)];
    let output = emitter.emit_script_file(&items, 1).unwrap();

    // Jump table should have two entries (sorted by ID)
    // Entry 1 (ID 1) -> Pointer to End
    // Entry 2 (ID 2) -> Pointer to End
    // JUMP_TABLE_END_MARKER (0xFD13)
    // End (opcode 0x0002)

    // Entry 1: 4 bytes
    // Entry 2: 4 bytes
    // End Marker: 2 bytes
    // End Command: 2 bytes
    assert_eq!(output.len(), 4 + 4 + 2 + 2);

    // Check End Marker at correct position
    assert_eq!(output[8], 0x13);
    assert_eq!(output[9], 0xFD);

    // Check End command (opcode 2) at end
    assert_eq!(output[10], 0x02);
    assert_eq!(output[11], 0x00);
}

fn function(name: &str, id: u32, instructions: Vec<IrOpcode>) -> TopLevelItem {
    TopLevelItem::Function(IrFunction {
        headers: vec![FunctionHeader {
            name: name.to_string(),
            id: Some(id),
            is_public: true,
        }],
        instructions,
    })
}

fn end() -> IrOpcode {
    IrOpcode::Command {
        name: "End".to_string(),
        args: vec![],
    }
}

#[test]
fn script_file_missing_slot_repeats_next_script() {
    let db = create_test_db();
    let mut emitter = Emitter::new(db);
    let items = vec![function("A", 1, vec![end()]), function("B", 3, vec![end()])];
    let output = emitter.emit_script_file(&items, 1).unwrap();
    assert_eq!(
        output,
        vec![10, 0, 0, 0, 8, 0, 0, 0, 4, 0, 0, 0, 0x13, 0xFD, 0x02, 0x00, 0x02, 0x00, 0, 0]
    );
}

#[test]
fn script_file_patches_label_references() {
    let db = create_test_db();
    let mut emitter = Emitter::new(db);
    let items = vec![function(
        "Main",
        1,
        vec![
            IrOpcode::Command {
                name: "Jump".to_string(),
                args: vec![Arg::Pointer(".t".to_string())],
            },
            end(),
            IrOpcode::Label(".t".to_string()),
            IrOpcode::Command {
                name: "Return".to_string(),
                args: vec![],
            },
        ],
    )];
    let output = emitter.emit_script_file(&items, 1).unwrap();
    assert_eq!(
        output,
        vec![2, 0, 0, 0, 0x13, 0xFD, 0x16, 0x00, 2, 0, 0, 0, 0x02, 0x00, 0x1B, 0x00]
    );
}

#[test]
fn script_file_rejects_undefined_label() {
    let db = create_test_db();
    let mut emitter = Emitter::new(db);
    let items = vec![function(
        "Main",
        1,
        vec![IrOpcode::Command {
            name: "Jump".to_string(),
            args: vec![Arg::Pointer("Nowhere".to_string())],
        }],
    )];
    let err = emitter.emit_script_file(&items, 1).unwrap_err();
    assert_eq!(err.describe(), "Codegen error: Undefined label 'Nowhere' for relocation");
}

#[test]
fn missing_command_is_a_database_error() {
    let db = create_test_db();
    let mut emitter = Emitter::new(db);
    let op = IrOpcode::Command { name: "NoSuchCommand".to_string(), args: vec![] };
    let err = emitter.emit_ir_opcode(&op).unwrap_err();
    assert!(matches!(err, rotom::compiler::diagnostic::error::CompileError::Database { .. }));
    assert_eq!(emitter.output().len(), 0);
    assert_eq!(emitter.pc(), 0);
}

#[test]
fn label_leaves_the_counter() {
    let db = create_test_db();
    let mut emitter = Emitter::new(db);
    emitter.emit_ir_opcode(&IrOpcode::Label("Here".to_string())).unwrap();
    assert_eq!(emitter.pc(), 0);
    emitter.emit_movement(&IrOpcode::Command { name: "FaceNorth".to_string(), args: vec![] }).unwrap();
    assert_eq!(emitter.pc(), 4);
    assert_eq!(emitter.output().len(), 4);
}
