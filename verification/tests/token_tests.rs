use rotom::compiler::token::{normalize_control_keyword, TokenType};

#[test]
fn test_normalize_control_keyword_accepts_aliases_and_case() {
    assert_eq!(normalize_control_keyword("jump"), Some(TokenType::Jump));
    assert_eq!(normalize_control_keyword("Jump"), Some(TokenType::Jump));
    assert_eq!(normalize_control_keyword("goto"), Some(TokenType::Jump));
    assert_eq!(normalize_control_keyword("GoTo"), Some(TokenType::Jump));
    assert_eq!(
        normalize_control_keyword("EndMovement"),
        Some(TokenType::EndMovement)
    );
    assert_eq!(
        normalize_control_keyword("endmovement"),
        Some(TokenType::EndMovement)
    );
    assert_eq!(normalize_control_keyword("return"), Some(TokenType::Return));
    assert_eq!(normalize_control_keyword("IF"), Some(TokenType::If));
}
