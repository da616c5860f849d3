use rotom::compiler::ir::{Arg, IrOpcode, TopLevelItem};
use rotom::database::{Command, CommandType, DatabaseMeta, DatabaseV2, ParamDef, ParamType};
use rotom::decompiler::decomp_error::DecompileError;
use rotom::decompiler::disassembler::{db_fits_check, disassemble_bytes, Disassembler, ScriptOutput};
use rotom::decompiler::levelscript::LevelScriptHeaderEntry;

fn param(name: &str, param_type: ParamType) -> ParamDef {
    ParamDef {
        name: name.to_string(),
        param_type,
        const_value: None,
        default: None,
        optional: false,
    }
}

fn command(cmd_type: CommandType, id: u16, params: Vec<ParamDef>) -> Command {
    Command {
        cmd_type,
        id: Some(id),
        legacy_name: None,
        description: None,
        params,
        variants: None,
        expansion: None,
    }
}

fn test_db() -> DatabaseV2 {
    let commands = vec![
        ("End".to_string(), command(CommandType::ScriptCmd, 0x02, vec![])),
        (
            "Jump".to_string(),
            command(
                CommandType::ScriptCmd,
                0x16,
                vec![param("relative_jump", ParamType::U32)],
            ),
        ),
        (
            "ApplyMovement".to_string(),
            command(
                CommandType::ScriptCmd,
                0x5E,
                vec![
                    param("object", ParamType::U16),
                    param("relative_jump", ParamType::U32),
                ],
            ),
        ),
        ("FaceNorth".to_string(), command(CommandType::Movement, 0x00, vec![])),
        ("EndMovement".to_string(), command(CommandType::Movement, 0xFE, vec![])),
    ];
    DatabaseV2 {
        meta: DatabaseMeta {
            version: "platinum".to_string(),
            generated_at: None,
            generated_from: None,
        },
        commands,
        sounds: Vec::new(),
        comparison_operators: Vec::new(),
        overworld_directions: Vec::new(),
        special_overworlds: Vec::new(),
    }
}

fn command_names(ops: &[IrOpcode]) -> Vec<String> {
    ops.iter()
        .map(|op| match op {
            IrOpcode::Command { name, .. } => name.clone(),
            IrOpcode::Label(name) => format!("label:{name}"),
        })
        .collect()
}

#[test]
fn disassemble_rejects_tiny_files() {
    let db = test_db();
    match disassemble_bytes(&db, vec![1, 2, 3]) {
        Err(DecompileError::InvalidFormat { message }) => {
            assert_eq!(message, "File too small to contain a valid script")
        }
        other => panic!("unexpected result: {other:?}"),
    }
}

#[test]
fn disassemble_four_zero_bytes_is_an_empty_levelscript() {
    let db = test_db();
    match disassemble_bytes(&db, vec![0, 0, 0, 0]) {
        Ok(ScriptOutput::Levelscript(ls)) => assert!(ls.is_empty()),
        other => panic!("unexpected result: {other:?}"),
    }
}

#[test]
fn disassemble_detects_levelscript_by_seventh_byte() {
    let db = test_db();
    let bytes = vec![
        0x03, 0x4C, 0x26, 0x00, 0x00, 0x02, 0x4A, 0x26, 0x00, 0x00, 0x00, 0x00, 0x00, 0x00, 0x00,
        0x00,
    ];
    match disassemble_bytes(&db, bytes) {
        Ok(ScriptOutput::Levelscript(ls)) => {
            assert_eq!(
                ls.header_entries,
                vec![
                    LevelScriptHeaderEntry::OnResume { script_id: 0x264C },
                    LevelScriptHeaderEntry::OnTransition { script_id: 0x264A },
                ]
            );
            assert_eq!(ls.padding, 4);
        }
        other => panic!("unexpected result: {other:?}"),
    }
}

#[test]
fn disassemble_single_script() {
    let db = test_db();
    // One jump-table entry pointing at offset 6, the marker, then `End`.
    let bytes = vec![0x02, 0x00, 0x00, 0x00, 0x13, 0xFD, 0x02, 0x00];
    let mut disassembler = Disassembler::new(&db, bytes);
    match disassembler.disassemble() {
        Ok(ScriptOutput::Normal(items)) => {
            assert_eq!(items.len(), 1);
            match &items[0] {
                TopLevelItem::Function(f) => {
                    assert_eq!(f.headers.len(), 1);
                    assert_eq!(f.headers[0].name, "script_0");
                    assert_eq!(f.headers[0].id, Some(0));
                    assert!(f.headers[0].is_public);
                    assert_eq!(command_names(&f.instructions), vec!["End"]);
                }
                other => panic!("expected a script, got {other:?}"),
            }
        }
        other => panic!("unexpected result: {other:?}"),
    }
}

#[test]
fn disassemble_names_jump_targets() {
    let db = test_db();
    // script_0 at 6: Jump +0 (to 12), then End at 12.
    let bytes = vec![
        0x02, 0x00, 0x00, 0x00, 0x13, 0xFD, 0x16, 0x00, 0x00, 0x00, 0x00, 0x00, 0x02, 0x00,
    ];
    match disassemble_bytes(&db, bytes) {
        Ok(ScriptOutput::Normal(items)) => {
            assert_eq!(items.len(), 2);
            match &items[0] {
                TopLevelItem::Function(f) => {
                    assert_eq!(f.headers[0].name, "script_0");
                    match &f.instructions[0] {
                        IrOpcode::Command { name, args } => {
                            assert_eq!(name, "Jump");
                            assert!(matches!(&args[0], Arg::Pointer(p) if p == "_L000C"));
                        }
                        other => panic!("expected a command, got {other:?}"),
                    }
                }
                other => panic!("expected a script, got {other:?}"),
            }
            match &items[1] {
                TopLevelItem::Function(f) => {
                    assert_eq!(f.headers[0].name, "_L000C");
                    assert_eq!(f.headers[0].id, None);
                    assert!(!f.headers[0].is_public);
                    assert_eq!(command_names(&f.instructions), vec!["End"]);
                }
                other => panic!("expected a script, got {other:?}"),
            }
        }
        other => panic!("unexpected result: {other:?}"),
    }
}

#[test]
fn disassemble_recovers_movement_actions() {
    let db = test_db();
    // script_0 at 6: ApplyMovement 0xFF, action at 16; End. Action: FaceNorth 1, EndMovement.
    let bytes = vec![
        0x02, 0x00, 0x00, 0x00, 0x13, 0xFD, 0x5E, 0x00, 0xFF, 0x00, 0x02, 0x00, 0x00, 0x00, 0x02,
        0x00, 0x00, 0x00, 0x01, 0x00, 0xFE, 0x00, 0x00, 0x00,
    ];
    match disassemble_bytes(&db, bytes) {
        Ok(ScriptOutput::Normal(items)) => {
            assert_eq!(items.len(), 2);
            match &items[0] {
                TopLevelItem::Function(f) => {
                    assert_eq!(command_names(&f.instructions), vec!["ApplyMovement", "End"]);
                    match &f.instructions[0] {
                        IrOpcode::Command { args, .. } => {
                            assert!(matches!(args[0], Arg::Value(255)));
                            assert!(matches!(&args[1], Arg::Pointer(p) if p == "action_0"));
                        }
                        other => panic!("expected a command, got {other:?}"),
                    }
                }
                other => panic!("expected a script, got {other:?}"),
            }
            match &items[1] {
                TopLevelItem::Action(a) => {
                    assert_eq!(a.name, "action_0");
                    assert_eq!(command_names(&a.instructions), vec!["FaceNorth", "EndMovement"]);
                    match &a.instructions[0] {
                        IrOpcode::Command { args, .. } => assert!(matches!(args[0], Arg::Value(1))),
                        other => panic!("expected a command, got {other:?}"),
                    }
                }
                other => panic!("expected an action, got {other:?}"),
            }
        }
        other => panic!("unexpected result: {other:?}"),
    }
}

#[test]
fn disassemble_rejects_misaligned_jump_table() {
    let db = test_db();
    let bytes = vec![0x00, 0x00, 0x13, 0xFD, 0x01, 0x02, 0x00, 0x00];
    match disassemble_bytes(&db, bytes) {
        Err(DecompileError::InvalidFormat { message }) => {
            assert_eq!(message, "Jump table size 2 is not a multiple of 4")
        }
        other => panic!("unexpected result: {other:?}"),
    }
}

#[test]
fn disassemble_reports_unresolved_labels() {
    let db = test_db();
    // The movement action at 16 is cut off after two bytes, so its label is
    // never defined.
    let bytes = vec![
        0x02, 0x00, 0x00, 0x00, 0x13, 0xFD, 0x5E, 0x00, 0xFF, 0x00, 0x02, 0x00, 0x00, 0x00, 0x02,
        0x00, 0x00, 0x00,
    ];
    match disassemble_bytes(&db, bytes) {
        Err(DecompileError::InvalidFormat { message }) => assert_eq!(
            message,
            "Disassembly emitted unresolved label reference(s): action_0"
        ),
        other => panic!("unexpected result: {other:?}"),
    }
}

#[test]
fn disassemble_detects_six_byte_levelscript_by_zero_fifth_and_sixth_bytes() {
    let db = test_db();
    match disassemble_bytes(&db, vec![0x03, 0x01, 0x00, 0x00, 0x00, 0x00]) {
        Ok(ScriptOutput::Levelscript(ls)) => {
            assert_eq!(ls.header_entries, vec![LevelScriptHeaderEntry::OnResume { script_id: 1 }]);
        }
        other => panic!("unexpected result: {other:?}"),
    }
}

#[test]
fn db_fits_check_accepts_ordinary_database() {
    assert!(db_fits_check(&test_db()));
}
