use rotom::compiler::analysis::SymbolTable;
use rotom::compiler::ast::{Expression, ExpressionKind, ScriptFile};
use rotom::compiler::ir::{Arg, IrOpcode, TopLevelItem};
use rotom::compiler::lexer::Lexer;
use rotom::compiler::lowerer::Lowerer;
use rotom::compiler::parser::Parser;
use rotom::compiler::token::TokenType;
use rotom::database::{DatabaseMeta, DatabaseV2};

fn empty_db() -> DatabaseV2 {
    DatabaseV2 {
        meta: DatabaseMeta {
            version: "platinum".to_string(),
            generated_at: None,
            generated_from: None,
        },
        commands: Vec::new(),
        sounds: Vec::new(),
        comparison_operators: Vec::new(),
        overworld_directions: Vec::new(),
        special_overworlds: Vec::new(),
    }
}

fn parse(source: &str) -> ScriptFile {
    let mut parser = Parser::new(Lexer::new(source));
    parser.parse_script_file().unwrap()
}

fn lower(source: &str) -> Vec<IrOpcode> {
    let file = parse(source);
    let symbols = SymbolTable::new();
    let db = empty_db();
    let mut lowerer = Lowerer::new(&symbols, &db);
    let items = lowerer.lower_script_file(&file).unwrap();
    match &items[0] {
        TopLevelItem::Function(f) => f.instructions.clone(),
        TopLevelItem::Action(_) => panic!("Expected script"),
    }
}

fn command(name: &str, args: Vec<Arg>) -> String {
    format!("{:?}", IrOpcode::Command { name: name.to_string(), args })
}

fn label(name: &str) -> String {
    format!("{:?}", IrOpcode::Label(name.to_string()))
}

fn texts(ops: &[IrOpcode]) -> Vec<String> {
    ops.iter().map(|op| format!("{:?}", op)).collect()
}

#[test]
fn test_lower_if_statement_ops() {
    let ops = lower("script TestFunc #1:\n    if 0x8000 == 1 then\n        Message 1\n    endif\n    End\n");
    assert_eq!(
        texts(&ops),
        vec![
            command("CompareVarValue", vec![Arg::Value(0x8000), Arg::Value(1)]),
            command("JumpIf", vec![Arg::Value(5), Arg::Pointer(".end_if_gen_1".to_string())]),
            command("Message", vec![Arg::Value(1)]),
            label(".end_if_gen_1"),
            command("End", vec![]),
        ]
    );
}

#[test]
fn test_lower_if_else_ops() {
    let ops = lower(
        "script TestFunc #1:\n    if 0x8000 == 1 then\n        Message 1\n    else\n        Message 2\n    endif\n    End\n",
    );
    assert_eq!(
        texts(&ops),
        vec![
            command("CompareVarValue", vec![Arg::Value(0x8000), Arg::Value(1)]),
            command("JumpIf", vec![Arg::Value(5), Arg::Pointer(".else_gen_2".to_string())]),
            command("Message", vec![Arg::Value(1)]),
            command("Jump", vec![Arg::Pointer(".end_if_gen_1".to_string())]),
            label(".else_gen_2"),
            command("Message", vec![Arg::Value(2)]),
            label(".end_if_gen_1"),
            command("End", vec![]),
        ]
    );
}

#[test]
fn test_lower_while_and_break_ops() {
    let ops = lower(
        "script TestFunc #1:\n    while 0x8000 != 0 do\n        if 0x8000 == 5 then\n            break\n        endif\n        SubVar 0x8000, 1\n    endwhile\n    End\n",
    );
    assert_eq!(
        texts(&ops),
        vec![
            label(".while_start_gen_1"),
            command("CompareVarValue", vec![Arg::Value(0x8000), Arg::Value(0)]),
            command("JumpIf", vec![Arg::Value(1), Arg::Pointer(".while_end_gen_2".to_string())]),
            command("CompareVarValue", vec![Arg::Value(0x8000), Arg::Value(5)]),
            command("JumpIf", vec![Arg::Value(5), Arg::Pointer(".end_if_gen_3".to_string())]),
            command("Jump", vec![Arg::Pointer(".while_end_gen_2".to_string())]),
            label(".end_if_gen_3"),
            command("SubVar", vec![Arg::Value(0x8000), Arg::Value(1)]),
            command("Jump", vec![Arg::Pointer(".while_start_gen_1".to_string())]),
            label(".while_end_gen_2"),
            command("End", vec![]),
        ]
    );
}

#[test]
fn test_lower_condition_operand_swap_ops() {
    // A number on the left and a variable on the right are swapped, and
    // the comparison turned round: `5 < var` tests `var > 5`.
    let ops = lower("script TestFunc #1:\n    if 5 < 0x8000 then\n        End\n    endif\n");
    assert_eq!(
        texts(&ops)[..2].to_vec(),
        vec![
            command("CompareVarValue", vec![Arg::Value(0x8000), Arg::Value(5)]),
            // inverted: not (var > 5) is var <= 5
            command("JumpIf", vec![Arg::Value(3), Arg::Pointer(".end_if_gen_1".to_string())]),
        ]
    );
}

#[test]
fn test_lower_compare_two_variables() {
    let ops = lower("script TestFunc #1:\n    if 0x8000 >= 0x8001 then\n        End\n    endif\n");
    assert_eq!(
        texts(&ops)[..2].to_vec(),
        vec![
            command("CompareVars", vec![Arg::Value(0x8000), Arg::Value(0x8001)]),
            command("JumpIf", vec![Arg::Value(0), Arg::Pointer(".end_if_gen_1".to_string())]),
        ]
    );
}

#[test]
fn test_lower_alias_and_arithmetic_args() {
    let ops = lower("alias 0x8004 as counter\nscript TestFunc #1:\n    SetVar counter, 2 * 3 + 1\n    End\n");
    assert_eq!(
        texts(&ops),
        vec![command("SetVar", vec![Arg::Value(0x8004), Arg::Value(7)]), command("End", vec![])]
    );
}

#[test]
fn test_lower_label_and_jump() {
    // A label line starts a new script item; the jump names it.
    let file = parse("script TestFunc #1:\n    Message 1\n    Jump .skip\n    Message 2\n.skip:\n    Message 3\n    End\n");
    let symbols = SymbolTable::new();
    let db = empty_db();
    let mut lowerer = Lowerer::new(&symbols, &db);
    let items = lowerer.lower_script_file(&file).unwrap();
    assert_eq!(items.len(), 2);
    match (&items[0], &items[1]) {
        (TopLevelItem::Function(a), TopLevelItem::Function(b)) => {
            assert_eq!(
                texts(&a.instructions),
                vec![
                    command("Message", vec![Arg::Value(1)]),
                    command("Jump", vec![Arg::Pointer(".skip".to_string())]),
                    command("Message", vec![Arg::Value(2)]),
                ]
            );
            assert_eq!(b.headers[0].name, ".skip");
            assert_eq!(
                texts(&b.instructions),
                vec![command("Message", vec![Arg::Value(3)]), command("End", vec![])]
            );
        }
        _ => panic!("Expected two scripts"),
    }
}

#[test]
fn test_lower_break_outside_loop_fails() {
    let file = parse("script TestFunc #1:\n    break\n");
    let symbols = SymbolTable::new();
    let db = empty_db();
    let mut lowerer = Lowerer::new(&symbols, &db);
    let err = lowerer.lower_script_file(&file).unwrap_err();
    assert!(err.describe().contains("break statement outside of loop"));
}

#[test]
fn test_resolve_arg_unknown_symbol_fails() {
    let symbols = SymbolTable::new();
    let db = empty_db();
    let lowerer = Lowerer::new(&symbols, &db);
    let e = Expression { node: ExpressionKind::Identifier("missing".to_string()), span: 0..7 };
    let err = lowerer.resolve_arg(&e).unwrap_err();
    assert!(err.describe().contains("Symbol 'missing' could not be resolved"));
    let neg = Expression {
        node: ExpressionKind::Prefix {
            operator: TokenType::Minus,
            id: Box::new(Expression { node: ExpressionKind::Number(4), span: 1..2 }),
        },
        span: 0..2,
    };
    assert!(matches!(lowerer.resolve_arg(&neg).unwrap(), Arg::Value(-4)));
    let equal = Expression { node: ExpressionKind::Identifier("equal".to_string()), span: 0..5 };
    assert!(matches!(lowerer.resolve_arg(&equal).unwrap(), Arg::Value(1)));
}

#[test]
fn test_lower_match_statement_ops() {
    let ops = lower(
        "script TestFunc #1:\n    match 0x8000 with\n    case 0:\n        Message 1\n    case 1, 2:\n        Message 2\n    else:\n        Message 3\n    endmatch\n    End\n",
    );
    assert_eq!(
        texts(&ops),
        vec![
            command("CompareVarValue", vec![Arg::Value(0x8000), Arg::Value(0)]),
            command("JumpIf", vec![Arg::Value(5), Arg::Pointer(".match_next_gen_2".to_string())]),
            label(".match_case_gen_3"),
            command("Message", vec![Arg::Value(1)]),
            command("Jump", vec![Arg::Pointer(".end_match_gen_1".to_string())]),
            label(".match_next_gen_2"),
            command("CompareVarValue", vec![Arg::Value(0x8000), Arg::Value(1)]),
            command("JumpIf", vec![Arg::Value(1), Arg::Pointer(".match_case_gen_5".to_string())]),
            command("CompareVarValue", vec![Arg::Value(0x8000), Arg::Value(2)]),
            command("JumpIf", vec![Arg::Value(5), Arg::Pointer(".match_default_gen_4".to_string())]),
            label(".match_case_gen_5"),
            command("Message", vec![Arg::Value(2)]),
            command("Jump", vec![Arg::Pointer(".end_match_gen_1".to_string())]),
            label(".match_default_gen_4"),
            command("Message", vec![Arg::Value(3)]),
            label(".end_match_gen_1"),
            command("End", vec![]),
        ]
    );
}

#[test]
fn test_lower_match_direct_jump_case() {
    let ops = lower("script TestFunc #1:\n    match 0x8000 with\n    case 3:\n        Jump .target\n    endmatch\n.target:\n    End\n");
    assert_eq!(
        texts(&ops),
        vec![
            command("CompareVarValue", vec![Arg::Value(0x8000), Arg::Value(3)]),
            command("JumpIf", vec![Arg::Value(1), Arg::Pointer(".target".to_string())]),
        ]
    );
}
