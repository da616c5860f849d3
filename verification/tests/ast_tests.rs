use rotom::compiler::ast::{Expression, ExpressionKind};
use rotom::compiler::token::TokenType;

#[test]
fn test_infix_constant_eval_parenthesizes_macro_arg_does_not() {
    let expr = Expression {
        node: ExpressionKind::Infix {
            left: Box::new(Expression {
                node: ExpressionKind::Number(1),
                span: 0..1,
            }),
            operator: TokenType::Plus,
            right: Box::new(Expression {
                node: ExpressionKind::Number(2),
                span: 2..3,
            }),
        },
        span: 0..3,
    };
    assert_eq!(expr.to_constant_eval_source().unwrap(), "(1 + 2)");
    assert_eq!(expr.to_macro_arg_source().unwrap(), "1 + 2");
}

#[test]
fn test_prefix_formatting() {
    let expr = Expression {
        node: ExpressionKind::Prefix {
            operator: TokenType::Minus,
            id: Box::new(Expression {
                node: ExpressionKind::Number(42),
                span: 1..3,
            }),
        },
        span: 0..3,
    };
    assert_eq!(expr.to_constant_eval_source().unwrap(), "-42");
    assert_eq!(expr.to_macro_arg_source().unwrap(), "-42");
}

#[test]
fn test_call_expression_formatting() {
    let expr = Expression {
        node: ExpressionKind::Call {
            function: Box::new(Expression {
                node: ExpressionKind::Identifier("TEST".to_string()),
                span: 0..4,
            }),
            args: vec![
                Expression {
                    node: ExpressionKind::Number(1),
                    span: 5..6,
                },
                Expression {
                    node: ExpressionKind::Number(2),
                    span: 8..9,
                },
            ],
        },
        span: 0..10,
    };
    assert_eq!(expr.to_constant_eval_source().unwrap(), "TEST(1, 2)");
    assert_eq!(expr.to_macro_arg_source().unwrap(), "TEST(1, 2)");
}

#[test]
fn test_call_non_identifier_function_contains_context() {
    let expr = Expression {
        node: ExpressionKind::Call {
            function: Box::new(Expression {
                node: ExpressionKind::Number(42),
                span: 0..2,
            }),
            args: vec![],
        },
        span: 0..2,
    };
    let const_err = expr.to_constant_eval_source().unwrap_err();
    assert!(
        const_err.contains("constant evaluation"),
        "expected 'constant evaluation' in error, got: {const_err}"
    );
    let macro_err = expr.to_macro_arg_source().unwrap_err();
    assert!(
        macro_err.contains("macro argument"),
        "expected 'macro argument' in error, got: {macro_err}"
    );
}

#[test]
fn test_string_segment_formatting() {
    let expr = Expression {
        node: ExpressionKind::String(vec![("hello".to_string(), 0), ("world".to_string(), 6)]),
        span: 0..11,
    };
    assert_eq!(expr.to_constant_eval_source().unwrap(), "hello world");
    assert_eq!(expr.to_macro_arg_source().unwrap(), "hello world");
}

#[test]
fn test_error_variant_contains_contextual_message() {
    let expr = Expression {
        node: ExpressionKind::Error,
        span: 0..0,
    };
    let const_err = expr.to_constant_eval_source().unwrap_err();
    assert!(
        const_err.contains("constant evaluation"),
        "expected 'constant evaluation' in error, got: {const_err}"
    );
    let macro_err = expr.to_macro_arg_source().unwrap_err();
    assert!(
        macro_err.contains("macro argument"),
        "expected 'macro argument' in error, got: {macro_err}"
    );
}

#[test]
fn test_unsupported_prefix_contains_context() {
    let expr = Expression {
        node: ExpressionKind::Prefix {
            operator: TokenType::Mul,
            id: Box::new(Expression {
                node: ExpressionKind::Number(5),
                span: 1..2,
            }),
        },
        span: 0..2,
    };
    let const_err = expr.to_constant_eval_source().unwrap_err();
    assert!(
        const_err.contains("constant expression"),
        "expected 'constant expression' in error, got: {const_err}"
    );
    let macro_err = expr.to_macro_arg_source().unwrap_err();
    assert!(
        macro_err.contains("macro argument"),
        "expected 'macro argument' in error, got: {macro_err}"
    );
}

#[test]
fn test_unsupported_infix_contains_context() {
    let expr = Expression {
        node: ExpressionKind::Infix {
            left: Box::new(Expression {
                node: ExpressionKind::Number(1),
                span: 0..1,
            }),
            operator: TokenType::Assign,
            right: Box::new(Expression {
                node: ExpressionKind::Number(2),
                span: 2..3,
            }),
        },
        span: 0..3,
    };
    let const_err = expr.to_constant_eval_source().unwrap_err();
    assert!(
        const_err.contains("constant expression"),
        "expected 'constant expression' in error, got: {const_err}"
    );
    let macro_err = expr.to_macro_arg_source().unwrap_err();
    assert!(
        macro_err.contains("macro argument"),
        "expected 'macro argument' in error, got: {macro_err}"
    );
}

#[test]
fn test_label_formats_like_identifier() {
    let expr = Expression {
        node: ExpressionKind::Label("target".to_string()),
        span: 0..6,
    };
    assert_eq!(expr.to_constant_eval_source().unwrap(), "target");
    assert_eq!(expr.to_macro_arg_source().unwrap(), "target");
}

#[test]
fn test_number_formatting() {
    let expr = Expression {
        node: ExpressionKind::Number(42),
        span: 0..2,
    };
    assert_eq!(expr.to_constant_eval_source().unwrap(), "42");
    assert_eq!(expr.to_macro_arg_source().unwrap(), "42");
}

#[test]
fn constant_eval_and_macro_texts_agree_without_infix() {
    let e = Expression {
        node: ExpressionKind::Prefix {
            operator: TokenType::Minus,
            id: Box::new(Expression { node: ExpressionKind::Identifier("FOO".to_string()), span: 1..4 }),
        },
        span: 0..4,
    };
    assert_eq!(e.to_constant_eval_source().unwrap(), "-FOO");
    assert_eq!(e.to_macro_arg_source().unwrap(), "-FOO");
}
