use rotom::compiler::ast::FunctionHeader;
use rotom::compiler::ir::{Arg, IrAction, IrFunction, IrOpcode, TopLevelItem};

#[test]
fn value_returns_inner_number() {
    assert_eq!(Arg::Value(42).value("test context").unwrap(), 42);
}

#[test]
fn value_rejects_pointer_with_context() {
    let error = Arg::Pointer("target".to_string())
        .value("match subject")
        .expect_err("pointer should not be accepted as a value");

    assert!(
        error.describe().contains("match subject"),
        "error should include caller context: {error:?}"
    );
}

#[test]
fn args_print_as_hex_or_pointer() {
    assert_eq!(Arg::Value(0x800C).describe(), "0x800C");
    assert_eq!(Arg::Value(0).describe(), "0x0");
    assert_eq!(Arg::Value(-1).describe(), "0xFFFFFFFF");
    assert_eq!(Arg::Pointer("Label_1".to_string()).describe(), "Pointer(Label_1)");
}

#[test]
fn opcodes_print_as_indented_commands_and_labels() {
    let cmd = IrOpcode::Command {
        name: "SetVar".to_string(),
        args: vec![Arg::Value(0x4000), Arg::Value(1)],
    };
    assert_eq!(cmd.describe(), "    SetVar 0x4000, 0x1");
    let end = IrOpcode::Command {
        name: "End".to_string(),
        args: Vec::new(),
    };
    assert_eq!(end.describe(), "    End ");
    assert_eq!(IrOpcode::Label("Loop".to_string()).describe(), "Loop:");
}

#[test]
fn functions_and_actions_print_with_titles() {
    let func = IrFunction {
        headers: vec![FunctionHeader {
            name: "Main".to_string(),
            id: Some(1),
            is_public: true,
        }],
        instructions: vec![
            IrOpcode::Label("Start".to_string()),
            IrOpcode::Command {
                name: "Goto".to_string(),
                args: vec![Arg::Pointer("Start".to_string())],
            },
        ],
    };
    assert_eq!(
        func.describe(),
        "=== IR: Main ===\nStart:\n    Goto Pointer(Start)\n"
    );
    let action = IrAction {
        name: "Walk".to_string(),
        instructions: vec![IrOpcode::Command {
            name: "WalkUp".to_string(),
            args: vec![Arg::Value(2)],
        }],
    };
    assert_eq!(action.describe(), "=== IR Action: Walk ===\n    WalkUp 0x2\n");
    assert_eq!(
        TopLevelItem::Action(action).describe(),
        "=== IR Action: Walk ===\n    WalkUp 0x2\n"
    );
    assert_eq!(TopLevelItem::Function(func).describe(), "=== IR: Main ===\nStart:\n    Goto Pointer(Start)\n");
}
