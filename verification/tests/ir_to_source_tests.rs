use rotom::compiler::ast::FunctionHeader;
use rotom::compiler::ir::{Arg, IrAction, IrFunction, IrOpcode, TopLevelItem};
use rotom::database::{Command, CommandType, DatabaseMeta, DatabaseV2, ParamDef, ParamType};
use rotom::decompiler::ir_to_source::{format_slot_list, normal_script_to_source};

fn param(name: &str, param_type: ParamType) -> ParamDef {
    ParamDef {
        name: name.to_string(),
        param_type,
        const_value: None,
        default: None,
        optional: false,
    }
}

fn command(id: u16, params: Vec<ParamDef>) -> Command {
    Command {
        cmd_type: CommandType::ScriptCmd,
        id: Some(id),
        legacy_name: None,
        description: None,
        params,
        variants: None,
        expansion: None,
    }
}

/// The Platinum commands these tests render.
fn create_test_db() -> DatabaseV2 {
    let commands = vec![
        (
            "CompareVarValue".to_string(),
            command(0x11, vec![param("var", ParamType::U16), param("value", ParamType::U16)]),
        ),
        (
            "GoToIf".to_string(),
            command(0x1C, vec![param("condition", ParamType::U8), param("offset", ParamType::U32)]),
        ),
        (
            "CallIf".to_string(),
            command(0x1D, vec![param("condition", ParamType::U8), param("offset", ParamType::U32)]),
        ),
        (
            "SetVarFromValue".to_string(),
            command(0x28, vec![param("var", ParamType::U16), param("value", ParamType::U16)]),
        ),
    ];
    DatabaseV2 {
        meta: DatabaseMeta {
            version: "platinum".to_string(),
            generated_at: None,
            generated_from: None,
        },
        commands,
        sounds: Vec::new(),
        comparison_operators: Vec::new(),
        overworld_directions: Vec::new(),
        special_overworlds: Vec::new(),
    }
}

fn header(name: &str, id: Option<u32>, is_public: bool) -> FunctionHeader {
    FunctionHeader { name: name.to_string(), id, is_public }
}

fn cmd(name: &str, args: Vec<Arg>) -> IrOpcode {
    IrOpcode::Command { name: name.to_string(), args }
}

#[test]
fn test_condition_formatted_as_symbolic() {
    let db = create_test_db();
    let func = IrFunction {
        headers: vec![header("TestFunc", Some(1), true)],
        instructions: vec![
            cmd("CompareVarValue", vec![Arg::Value(0x8000), Arg::Value(5)]),
            cmd("GoToIf", vec![Arg::Value(1), Arg::Pointer("some_label".to_string())]),
        ],
    };
    let source = normal_script_to_source(&[TopLevelItem::Function(func)], &db);
    assert!(
        source.contains("GoToIf EQUAL, some_label"),
        "Expected 'GoToIf EQUAL, some_label' but got: {}",
        source
    );
}

#[test]
fn test_all_conditions_formatted_symbolically() {
    let db = create_test_db();
    let func = IrFunction {
        headers: vec![header("TestFunc", Some(1), true)],
        instructions: (0..6)
            .map(|i| cmd("GoToIf", vec![Arg::Value(i), Arg::Pointer(format!("label{i}"))]))
            .collect(),
    };
    let source = normal_script_to_source(&[TopLevelItem::Function(func)], &db);
    assert!(source.contains("GoToIf LESS, label0"), "Missing LESS");
    assert!(source.contains("GoToIf EQUAL, label1"), "Missing EQUAL");
    assert!(source.contains("GoToIf GREATER, label2"), "Missing GREATER");
    assert!(source.contains("GoToIf LESS_EQUAL, label3"), "Missing LESS_EQUAL");
    assert!(source.contains("GoToIf GREATER_EQUAL, label4"), "Missing GREATER_EQUAL");
    assert!(source.contains("GoToIf DIFFERENT, label5"), "Missing DIFFERENT");
}

#[test]
fn test_callif_condition_formatted_symbolically() {
    let db = create_test_db();
    let func = IrFunction {
        headers: vec![header("TestFunc", Some(1), true)],
        instructions: vec![cmd("CallIf", vec![Arg::Value(1), Arg::Pointer("some_func".to_string())])],
    };
    let source = normal_script_to_source(&[TopLevelItem::Function(func)], &db);
    assert!(
        source.contains("CallIf EQUAL, some_func"),
        "Expected 'CallIf EQUAL, some_func' but got: {}",
        source
    );
}

#[test]
fn formats_private_labels_actions_and_slot_ranges() {
    let db = create_test_db();
    let func = IrFunction {
        headers: vec![
            header("script_1", Some(0), true),
            header("script_1", Some(1), true),
            header("script_1", Some(3), true),
            header("local_entry", None, false),
        ],
        instructions: vec![
            IrOpcode::Label("after_jump".to_string()),
            cmd("SetVarFromValue", vec![Arg::Value(0x4000), Arg::Value(7)]),
        ],
    };
    let action = IrAction {
        name: "action_0".to_string(),
        instructions: vec![cmd("WalkNormalNorth", vec![Arg::Value(3)])],
    };
    let source =
        normal_script_to_source(&[TopLevelItem::Function(func), TopLevelItem::Action(action)], &db);
    assert!(source.contains("script script_1 #[1-2, 4]:"));
    assert!(source.contains("local_entry:"));
    assert!(source.contains("after_jump:"));
    assert!(source.contains("SetVarFromValue 0x4000, 7"));
    assert!(source.contains("action action_0:"));
    assert!(source.contains("WalkNormalNorth 3"));
}

#[test]
fn whole_source_text() {
    let db = create_test_db();
    let func = IrFunction {
        headers: vec![header("Main", Some(0), true)],
        instructions: vec![cmd("CompareVarValue", vec![Arg::Value(0x8000), Arg::Value(-2)]), cmd("End", vec![])],
    };
    let action = IrAction { name: "walk".to_string(), instructions: vec![cmd("EndMovement", vec![])] };
    let source =
        normal_script_to_source(&[TopLevelItem::Function(func), TopLevelItem::Action(action)], &db);
    assert_eq!(
        source,
        "script Main #1:\n    CompareVarValue 0x8000, -2\n    End\n\naction walk:\n    EndMovement\n"
    );
}

#[test]
fn slot_lists() {
    assert_eq!(format_slot_list(&[7]), "#7");
    assert_eq!(format_slot_list(&[1, 2, 3, 5]), "#[1-3, 5]");
    assert_eq!(format_slot_list(&[2, 4]), "#[2, 4]");
    assert_eq!(format_slot_list(&[]), "#[]");
}
