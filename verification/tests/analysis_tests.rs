use rotom::compiler::analysis::{
    format_expression_for_constant_eval, Analyzer, SymbolType,
};
use rotom::database::ParamType;
use rotom::compiler::ast::{Expression, ExpressionKind, Spanned};
use rotom::compiler::diagnostic::error::CompileError;
use rotom::compiler::token::TokenType;

fn e(node: ExpressionKind) -> Expression {
    Spanned { node, span: 0..1 }
}

fn num(n: i32) -> Expression {
    e(ExpressionKind::Number(n))
}

fn ident(s: &str) -> Expression {
    e(ExpressionKind::Identifier(s.to_string()))
}

fn infix(l: Expression, op: TokenType, r: Expression) -> Expression {
    e(ExpressionKind::Infix { left: Box::new(l), operator: op, right: Box::new(r) })
}

#[test]
fn integer_expressions_resolve() {
    let an = Analyzer::new();
    assert_eq!(an.resolve_expression_to_int(&num(5)).unwrap(), 5);
    assert_eq!(an.resolve_expression_to_int(&ident("VARS_START")).unwrap(), 0x4000);
    assert_eq!(an.resolve_expression_to_int(&ident("SCRIPT_LOCAL_VARS_END")).unwrap(), 0x800D);
    assert_eq!(an.resolve_expression_to_int(&ident("equal")).unwrap(), 1);
    let neg = e(ExpressionKind::Prefix { operator: TokenType::Minus, id: Box::new(num(3)) });
    assert_eq!(an.resolve_expression_to_int(&neg).unwrap(), -3);
    let sum = infix(infix(num(2), TokenType::Mul, num(3)), TokenType::Plus, num(1));
    assert_eq!(an.resolve_expression_to_int(&sum).unwrap(), 7);
}

#[test]
fn integer_expression_failures() {
    let an = Analyzer::new();
    let over = infix(num(i32::MAX), TokenType::Plus, num(1));
    assert!(matches!(an.resolve_expression_to_int(&over), Err(CompileError::Analysis { .. })));
    match an.resolve_expression_to_int(&ident("Nowhere")) {
        Err(CompileError::Analysis { message, .. }) => {
            assert_eq!(message, "Could not resolve 'Nowhere' to an integer expression")
        }
        other => panic!("unexpected {:?}", other),
    }
    let call = e(ExpressionKind::Call { function: Box::new(ident("F")), args: vec![num(1)] });
    assert!(matches!(an.resolve_expression_to_int(&call), Err(CompileError::Analysis { .. })));
}

#[test]
fn aliases_resolve_to_their_values() {
    let mut an = Analyzer::new();
    an.symbols.define_alias("x".to_string(), 9, 0..1).unwrap();
    assert_eq!(an.resolve_expression_to_int(&ident("x")).unwrap(), 9);
}

#[test]
fn constant_expressions_format_as_c() {
    let sum = infix(ident("a"), TokenType::Plus, num(1));
    assert_eq!(format_expression_for_constant_eval(&sum).unwrap(), "(a + 1)");
    let neg = e(ExpressionKind::Prefix { operator: TokenType::Not, id: Box::new(ident("b")) });
    assert_eq!(format_expression_for_constant_eval(&neg).unwrap(), "!b");
    let call = e(ExpressionKind::Call { function: Box::new(ident("f")), args: vec![num(1), ident("x")] });
    assert_eq!(format_expression_for_constant_eval(&call).unwrap(), "f(1, x)");
}

#[test]
fn numbers_must_fit_their_parameter_type() {
    assert!(Analyzer::validate_number_for_type(255, &ParamType::U8, &(0..1), "Cmd", "p", 0).is_ok());
    assert!(Analyzer::validate_number_for_type(-128, &ParamType::U8, &(0..1), "Cmd", "p", 0).is_ok());
    assert!(Analyzer::validate_number_for_type(-1, &ParamType::Label, &(0..1), "Cmd", "p", 0).is_err());
    assert!(Analyzer::validate_number_for_type(i32::MIN, &ParamType::Unknown, &(0..1), "Cmd", "p", 0).is_ok());
    match Analyzer::validate_number_for_type(70000, &ParamType::Var, &(3..8), "SetVar", "var", 1) {
        Err(CompileError::Analysis { span, message }) => {
            assert_eq!(span, 3..8);
            assert_eq!(
                message,
                "Argument 2 ('var') for 'SetVar' is out of range: 70000 does not fit in u16 (0-65535)"
            );
        }
        other => panic!("unexpected {:?}", other),
    }
}

#[test]
fn jump_targets_must_resolve() {
    let mut an = Analyzer::new();
    an.symbols.define_global("Start".to_string(), SymbolType::Label, 0..1).unwrap();
    assert!(an.validate_jump_target(&ident("Start")).is_ok());
    assert!(an.validate_jump_target(&num(4)).is_ok());
    match an.validate_jump_target(&ident("Nowhere")) {
        Err(CompileError::Analysis { message, .. }) => assert_eq!(
            message,
            "Jump target 'Nowhere' not found. (Did you forget to define the label?)"
        ),
        other => panic!("unexpected {:?}", other),
    }
    assert_eq!(
        an.resolve_symbol("less_equal"),
        Some(SymbolType::Constant(3))
    );
}

#[test]
fn test_validate_number_for_type_rejects_negative_u32_like_params() {
    let result =
        Analyzer::validate_number_for_type(-1, &ParamType::Label, &(0..1), "Jump", "target", 0);
    assert!(
        result.is_err(),
        "negative values must not fit u32-like params"
    );
    let err_msg = format!("{:?}", result.err());
    assert!(
        err_msg.contains("out of range"),
        "error should mention out of range: {}",
        err_msg
    );
}

#[test]
fn scope_exit_forgets_scoped_definitions() {
    let mut an = Analyzer::new();
    an.symbols.define_global("Main".to_string(), SymbolType::Function(Some(1)), 0..4).unwrap();
    an.symbols.enter_scope();
    an.symbols.define_scoped(".inner".to_string(), SymbolType::Label, 5..11).unwrap();
    assert!(an.symbols.resolve(".inner").is_some());
    an.symbols.exit_scope();
    assert!(an.symbols.resolve(".inner").is_none());
    assert!(matches!(an.symbols.resolve("Main"), Some(SymbolType::Function(Some(1)))));
}
