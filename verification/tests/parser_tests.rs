use rotom::compiler::ast::{ExpressionKind, Precedence, StatementKind};
use rotom::compiler::lexer::Lexer;
use rotom::compiler::parser::Parser;
use rotom::compiler::token::TokenType;

#[test]
fn test_parser_initialization() {
    let source = "script TestFunc #1:\nEnd";
    let lexer = Lexer::new(source);
    let parser = Parser::new(lexer);
    assert_eq!(parser.current_token().kind, TokenType::Script);
    assert_eq!(
        parser.peek_token().kind,
        TokenType::Identifier("TestFunc".to_string())
    );
}

#[test]
fn test_parser_advance() {
    let source = "script TestFunc #1:\nEnd";
    let lexer = Lexer::new(source);
    let mut parser = Parser::new(lexer);
    parser.advance();
    assert_eq!(
        parser.current_token().kind,
        TokenType::Identifier("TestFunc".to_string())
    );
    assert_eq!(parser.peek_token().kind, TokenType::Hash);
}

#[test]
fn test_expect_advance_success() {
    let source = "script TestFunc #1:\nEnd";
    let lexer = Lexer::new(source);
    let mut parser = Parser::new(lexer);
    let token = parser.expect_advance(&TokenType::Script).unwrap();
    assert_eq!(token.kind, TokenType::Script);
    assert_eq!(
        parser.current_token().kind,
        TokenType::Identifier("TestFunc".to_string())
    );
}

#[test]
fn test_expect_advance_failure() {
    let source = "script TestFunc #1:\nEnd";
    let lexer = Lexer::new(source);
    let mut parser = Parser::new(lexer);
    let result = parser.expect_advance(&TokenType::If);
    assert!(result.is_err());
}

#[test]
fn test_parse_empty_script_file() {
    let source = "";
    let lexer = Lexer::new(source);
    let mut parser = Parser::new(lexer);
    let script_file = parser.parse_script_file().unwrap();
    assert!(script_file.aliases.is_empty());
    assert!(
        !script_file
            .items
            .iter()
            .any(|s| matches!(s.node, StatementKind::Function { .. }))
    );
    assert!(
        !script_file
            .items
            .iter()
            .any(|s| matches!(s.node, StatementKind::Action { .. }))
    );
}

#[test]
fn test_parse_simple_script() {
    let source = "script TestFunc #1:\nEnd";
    let lexer = Lexer::new(source);
    let mut parser = Parser::new(lexer);
    let script_file = parser.parse_script_file().unwrap();
    let functions: Vec<_> = script_file
        .items
        .iter()
        .filter(|s| matches!(s.node, StatementKind::Function { .. }))
        .collect();
    assert_eq!(functions.len(), 1);
    let script = functions[0];
    match &script.node {
        StatementKind::Function { headers, body } => {
            assert_eq!(headers.len(), 1);
            assert_eq!(headers[0].name, "TestFunc");
            assert_eq!(headers[0].id, Some(1));
            assert!(headers[0].is_public);
            assert_eq!(body.len(), 1);
        }
        _ => panic!("Expected script statement"),
    }
}

#[test]
fn test_parse_stacked_script_headers() {
    let source = r"
script TestFunc #1:
script TestFunc #2:
    End
";
    let lexer = Lexer::new(source);
    let mut parser = Parser::new(lexer);
    let script_file = parser.parse_script_file().unwrap();

    // Should be merged into ONE script item
    let functions: Vec<_> = script_file
        .items
        .iter()
        .filter(|s| matches!(s.node, StatementKind::Function { .. }))
        .collect();
    assert_eq!(functions.len(), 1);

    match &functions[0].node {
        StatementKind::Function { headers, body } => {
            assert_eq!(headers.len(), 2);
            assert_eq!(headers[0].id, Some(1));
            assert_eq!(headers[1].id, Some(2));
            assert_eq!(headers[0].name, "TestFunc");
            assert_eq!(headers[1].name, "TestFunc");
            assert_eq!(body.len(), 1); // Just "End"
        }
        _ => panic!("Expected script statement"),
    }
}

#[test]
fn test_parse_duplicate_function_error() {
    // Test that defining the same script name in separate blocks is an error
    let source = r"
script TestFunc #1:
    Message 1

script TestFunc #2:
    Message 2
    End
";
    let lexer = Lexer::new(source);
    let mut parser = Parser::new(lexer);
    let result = parser.parse_script_file();
    assert!(result.is_err());
    assert!(
        result
            .unwrap_err()
            .describe()
            .contains("Duplicate definition for script 'TestFunc'")
    );
}

#[test]
fn test_parse_function_with_return() {
    let source = "script TestFunc #1:\nReturn";
    let lexer = Lexer::new(source);
    let mut parser = Parser::new(lexer);
    let script_file = parser.parse_script_file().unwrap();
    let functions: Vec<_> = script_file
        .items
        .iter()
        .filter(|s| matches!(s.node, StatementKind::Function { .. }))
        .collect();
    assert_eq!(functions.len(), 1);
    let script = functions[0];
    match &script.node {
        StatementKind::Function { headers, body } => {
            assert_eq!(headers.len(), 1);
            assert_eq!(headers[0].name, "TestFunc");
            assert_eq!(body.len(), 1);
            match &body[0].node {
                StatementKind::Return => {}
                _ => panic!("Expected return statement"),
            }
        }
        _ => panic!("Expected script statement"),
    }
}

#[test]
fn test_parse_bare_label() {
    let source = "MyLabel:\n    Message 1\nEnd";
    let lexer = Lexer::new(source);
    let mut parser = Parser::new(lexer);
    let script_file = parser.parse_script_file().unwrap();
    let functions: Vec<_> = script_file
        .items
        .iter()
        .filter(|s| matches!(s.node, StatementKind::Function { .. }))
        .collect();
    assert_eq!(functions.len(), 1);
    let script = functions[0];
    match &script.node {
        StatementKind::Function { headers, .. } => {
            assert_eq!(headers.len(), 1);
            assert_eq!(headers[0].name, "MyLabel");
            assert_eq!(headers[0].id, None);
            assert!(!headers[0].is_public);
        }
        _ => panic!("Expected script statement"),
    }
}

#[test]
fn test_parse_function_then_label() {
    let source = "script Main #1:\n    Message 1\n\nSecondLabel:\n    Message 2\nEnd";
    let lexer = Lexer::new(source);
    let mut parser = Parser::new(lexer);
    let script_file = parser.parse_script_file().unwrap();
    let functions: Vec<_> = script_file
        .items
        .iter()
        .filter(|s| matches!(s.node, StatementKind::Function { .. }))
        .collect();
    assert_eq!(functions.len(), 2);

    // First function
    match &functions[0].node {
        StatementKind::Function { headers, .. } => {
            assert_eq!(headers[0].name, "Main");
            assert!(headers[0].is_public);
        }
        _ => panic!("Expected script"),
    }

    // Second (bare label)
    match &functions[1].node {
        StatementKind::Function { headers, .. } => {
            assert_eq!(headers[0].name, "SecondLabel");
            assert!(!headers[0].is_public);
        }
        _ => panic!("Expected script"),
    }
}

#[test]
fn test_parse_fallthrough() {
    let source = "script Func1 #1:\n    Message 1\n\nFunc2Label:\n    Message 2\nEnd";
    let lexer = Lexer::new(source);
    let mut parser = Parser::new(lexer);
    let script_file = parser.parse_script_file().unwrap();
    let functions: Vec<_> = script_file
        .items
        .iter()
        .filter(|s| matches!(s.node, StatementKind::Function { .. }))
        .collect();
    assert_eq!(functions.len(), 2);

    // First script has no End in its body
    match &functions[0].node {
        StatementKind::Function { body, .. } => {
            // Should just have the Message command, no End
            assert_eq!(body.len(), 1);
            match &body[0].node {
                StatementKind::ScriptCommand { command, .. } => {
                    assert_eq!(command, "Message");
                }
                _ => panic!("Expected command"),
            }
        }
        _ => panic!("Expected script"),
    }
}

#[test]
fn test_parse_if_else() {
    let source = r"
script TestFunc #1:
    if 0x8000 == 1 then
        Message 1
    else
        Message 2
    endif
    End
";
    let lexer = Lexer::new(source);
    let mut parser = Parser::new(lexer);
    let script_file = parser.parse_script_file().unwrap();
    let functions: Vec<_> = script_file
        .items
        .iter()
        .filter(|s| matches!(s.node, StatementKind::Function { .. }))
        .collect();
    assert_eq!(functions.len(), 1);

    match &functions[0].node {
        StatementKind::Function { body, .. } => {
            // Should have: IfStatement, End
            assert_eq!(body.len(), 2);
            match &body[0].node {
                StatementKind::IfStatement {
                    condition,
                    body: if_body,
                    elseblock,
                } => {
                    // Check condition is an infix expression
                    match &condition.node {
                        ExpressionKind::Infix { operator, .. } => {
                            assert_eq!(*operator, TokenType::Equal);
                        }
                        _ => panic!("Expected infix condition"),
                    }
                    // Check if body has one command
                    assert_eq!(if_body.len(), 1);
                    // Check else block exists and has one command
                    assert!(elseblock.is_some());
                    assert_eq!(elseblock.as_ref().unwrap().len(), 1);
                }
                _ => panic!("Expected if statement"),
            }
        }
        _ => panic!("Expected script"),
    }
}

#[test]
fn test_parse_if_elseif_chain() {
    // `else if` chains share a single terminating `endif`, regardless of
    // how many branches the chain has.
    let source = r"
script TestFunc #1:
    if 0x80C == 0 then
        GoTo TestInBed
    else if 0x40F == 0 then
        GoTo HalloweenEventInit
    else if 0x40F == 1 then
        GoTo TestInBed
    else
        GoTo TestInBed
    endif
    End
";
    let lexer = Lexer::new(source);
    let mut parser = Parser::new(lexer);
    let script_file = parser.parse_script_file().unwrap();
    let functions: Vec<_> = script_file
        .items
        .iter()
        .filter(|s| matches!(s.node, StatementKind::Function { .. }))
        .collect();
    assert_eq!(functions.len(), 1);

    match &functions[0].node {
        StatementKind::Function { body, .. } => {
            // IfStatement, End
            assert_eq!(body.len(), 2);
            // Walk the else-if chain: each `else if` nests an IfStatement
            // in the else block. Three `if`s -> three nested IfStatements,
            // terminated by a single shared `endif`.
            let mut depth = 0usize;
            let mut node = &body[0];
            while let StatementKind::IfStatement { elseblock, .. } = &node.node {
                depth += 1;
                match elseblock {
                    Some(branch) if branch.len() == 1 => node = &branch[0],
                    _ => break,
                }
            }
            assert_eq!(depth, 3);
        }
        _ => panic!("Expected function"),
    }
}

#[test]
fn test_parse_while_loop() {
    let source = r"
script TestFunc #1:
    while 0x8000 != 0 do
        SubVar 0x8000, 1
    endwhile
    End
";
    let lexer = Lexer::new(source);
    let mut parser = Parser::new(lexer);
    let script_file = parser.parse_script_file().unwrap();
    let functions: Vec<_> = script_file
        .items
        .iter()
        .filter(|s| matches!(s.node, StatementKind::Function { .. }))
        .collect();
    assert_eq!(functions.len(), 1);

    match &functions[0].node {
        StatementKind::Function { body, .. } => {
            // Should have: WhileStatement, End
            assert_eq!(body.len(), 2);
            match &body[0].node {
                StatementKind::WhileStatement {
                    condition,
                    body: while_body,
                } => {
                    // Check condition is an infix expression with !=
                    match &condition.node {
                        ExpressionKind::Infix { operator, .. } => {
                            assert_eq!(*operator, TokenType::NotEqual);
                        }
                        _ => panic!("Expected infix condition"),
                    }
                    // Check while body has one command
                    assert_eq!(while_body.len(), 1);
                }
                _ => panic!("Expected while statement"),
            }
        }
        _ => panic!("Expected script"),
    }
}

#[test]
fn test_parse_action() {
    let source = r"
action TestMovement:
    WalkNormalNorth 3
    FaceSouth
    EndMovement
";
    let lexer = Lexer::new(source);
    let mut parser = Parser::new(lexer);
    let script_file = parser.parse_script_file().unwrap();
    let actions: Vec<_> = script_file
        .items
        .iter()
        .filter(|s| matches!(s.node, StatementKind::Action { .. }))
        .collect();
    assert_eq!(actions.len(), 1);

    match &actions[0].node {
        StatementKind::Action { name, body } => {
            assert_eq!(name, "TestMovement");
            // Should have: WalkNormalNorth, FaceSouth, EndMovement
            assert_eq!(body.len(), 3);
        }
        _ => panic!("Expected action"),
    }
}

#[test]
fn test_parse_alias() {
    let source = r"
alias 0x800C as VAR_RESULT
alias 0x4000 as VAR_GLOBAL
alias VAR_RESULT as VAR_CHAINED

script TestFunc #1:
    SetVar VAR_RESULT, 5
    End
";
    let lexer = Lexer::new(source);
    let mut parser = Parser::new(lexer);
    let script_file = parser.parse_script_file().unwrap();

    assert_eq!(script_file.aliases.len(), 3);
    assert_eq!(script_file.items.len(), 4);
    assert!(matches!(
        script_file.items[0].node,
        StatementKind::AliasStatement { .. }
    ));
    assert!(matches!(
        script_file.items[3].node,
        StatementKind::Function { .. }
    ));

    // First alias
    match &script_file.aliases[0].node {
        StatementKind::AliasStatement { name, value, .. } => {
            assert_eq!(name, "VAR_RESULT");
            assert!(matches!(value.node, ExpressionKind::Number(0x800C)));
        }
        _ => panic!("Expected alias statement"),
    }

    // Second alias
    match &script_file.aliases[1].node {
        StatementKind::AliasStatement { name, value, .. } => {
            assert_eq!(name, "VAR_GLOBAL");
            assert!(matches!(value.node, ExpressionKind::Number(0x4000)));
        }
        _ => panic!("Expected alias statement"),
    }

    match &script_file.aliases[2].node {
        StatementKind::AliasStatement { name, value, .. } => {
            assert_eq!(name, "VAR_CHAINED");
            assert!(matches!(
                value.node,
                ExpressionKind::Identifier(ref ident) if ident == "VAR_RESULT"
            ));
        }
        _ => panic!("Expected alias statement"),
    }
}

#[test]
fn test_parse_match_statement() {
    let source = r"
script TestFunc #1:
    match 0x8000 with
        case 0:
            Message 1
        case 1, 2:
            Message 2
        else:
            Message 3
    endmatch
    End
";
    let lexer = Lexer::new(source);
    let mut parser = Parser::new(lexer);
    let script_file = parser.parse_script_file().unwrap();
    let functions: Vec<_> = script_file
        .items
        .iter()
        .filter(|s| matches!(s.node, StatementKind::Function { .. }))
        .collect();
    assert_eq!(functions.len(), 1);

    match &functions[0].node {
        StatementKind::Function { body, .. } => {
            assert_eq!(body.len(), 2);
            match &body[0].node {
                StatementKind::MatchStatement {
                    subject,
                    cases,
                    default,
                } => {
                    match &subject.node {
                        ExpressionKind::Number(n) => assert_eq!(*n, 0x8000),
                        _ => panic!("Expected number expression"),
                    }
                    assert_eq!(cases.len(), 2);
                    assert_eq!(cases[0].values.len(), 1);
                    assert_eq!(cases[1].values.len(), 2);
                    assert!(default.is_some());
                    assert_eq!(default.as_ref().unwrap().len(), 1);
                }
                _ => panic!("Expected match statement"),
            }
        }
        _ => panic!("Expected script"),
    }
}

#[test]
fn test_parse_match_without_else() {
    let source = r"
script TestFunc #1:
    match 0x8000 with
        case 0:
            Message 1
        case 1:
            Message 2
    endmatch
    End
";
    let lexer = Lexer::new(source);
    let mut parser = Parser::new(lexer);
    let script_file = parser.parse_script_file().unwrap();
    let functions: Vec<_> = script_file
        .items
        .iter()
        .filter(|s| matches!(s.node, StatementKind::Function { .. }))
        .collect();
    assert_eq!(functions.len(), 1);

    match &functions[0].node {
        StatementKind::Function { body, .. } => match &body[0].node {
            StatementKind::MatchStatement { cases, default, .. } => {
                assert_eq!(cases.len(), 2);
                assert!(default.is_none());
            }
            _ => panic!("Expected match statement"),
        },
        _ => panic!("Expected script"),
    }
}

#[test]
fn test_parse_match_with_keyword() {
    let source = r"
script TestFunc #1:
    match 0x8000 with
        case 0:
            Message 1
        case 1:
            Message 2
    endmatch
    End
";
    let lexer = Lexer::new(source);
    let mut parser = Parser::new(lexer);
    let script_file = parser.parse_script_file().unwrap();
    let functions: Vec<_> = script_file
        .items
        .iter()
        .filter(|s| matches!(s.node, StatementKind::Function { .. }))
        .collect();
    assert_eq!(functions.len(), 1);

    match &functions[0].node {
        StatementKind::Function { body, .. } => match &body[0].node {
            StatementKind::MatchStatement { cases, default, .. } => {
                assert_eq!(cases.len(), 2);
                assert!(default.is_none());
            }
            _ => panic!("Expected match statement"),
        },
        _ => panic!("Expected script"),
    }
}

#[test]
fn test_parse_break_statement() {
    let source = r"
script TestFunc #1:
    while 0x8000 != 0 do
        if 0x8000 == 5 then
            break
        endif
        SubVar 0x8000, 1
    endwhile
    End
";
    let lexer = Lexer::new(source);
    let mut parser = Parser::new(lexer);
    let script_file = parser.parse_script_file().unwrap();
    let functions: Vec<_> = script_file
        .items
        .iter()
        .filter(|s| matches!(s.node, StatementKind::Function { .. }))
        .collect();
    assert_eq!(functions.len(), 1);

    match &functions[0].node {
        StatementKind::Function { body, .. } => {
            assert_eq!(body.len(), 2);
            match &body[0].node {
                StatementKind::WhileStatement {
                    body: while_body, ..
                } => {
                    assert_eq!(while_body.len(), 2);
                    match &while_body[0].node {
                        StatementKind::IfStatement { body: if_body, .. } => {
                            assert_eq!(if_body.len(), 1);
                            assert!(matches!(&if_body[0].node, StatementKind::Break));
                        }
                        _ => panic!("Expected if statement"),
                    }
                }
                _ => panic!("Expected while statement"),
            }
        }
        _ => panic!("Expected script"),
    }
}

// ------------------------------------------------------------------
// Error-tolerant parsing tests
// ------------------------------------------------------------------

#[test]
fn test_fallible_parser_recovers_from_bad_statement() {
    let source = r"
script TestFunc #1:
    Message 1
    garbage_token !@#
    Message 2
    End
";
    let lexer = Lexer::new(source);
    let mut parser = Parser::new_fallible(lexer);
    let file = parser.parse_script_file().unwrap();
    let errors = std::mem::take(&mut parser.errors);

    // Should still produce a function with three statements (including error)
    assert!(!errors.is_empty(), "expected at least one error");
    let functions: Vec<_> = file
        .items
        .iter()
        .filter(|s| matches!(s.node, StatementKind::Function { .. }))
        .collect();
    assert_eq!(functions.len(), 1);
    match &functions[0].node {
        StatementKind::Function { body, .. } => {
            // Message 1, Error, Message 2, End
            assert_eq!(body.len(), 4);
            assert!(matches!(&body[1].node, StatementKind::Error));
        }
        _ => panic!("Expected function"),
    }
}

#[test]
fn test_fallible_parser_recovers_at_top_level() {
    // `!!!` is not a valid token sequence, so it will cause a parse error
    // that the fallible parser must recover from.
    let source = r"
script First #1:
    End

!!! invalid garbage

script Second #2:
    End
";
    let lexer = Lexer::new(source);
    let mut parser = Parser::new_fallible(lexer);
    let file = parser.parse_script_file().unwrap();
    let errors = std::mem::take(&mut parser.errors);

    assert!(!errors.is_empty(), "expected at least one error");
    assert_eq!(
        file.items
            .iter()
            .filter(|s| matches!(s.node, StatementKind::Function { .. }))
            .count(),
        2
    );
}

#[test]
fn test_fallible_parser_empty_source() {
    let lexer = Lexer::new("");
    let mut parser = Parser::new_fallible(lexer);
    let file = parser.parse_script_file().unwrap();
    let errors = std::mem::take(&mut parser.errors);
    assert!(errors.is_empty());
    assert!(file.items.is_empty());
}

#[test]
fn test_fallible_parser_recovers_from_missing_endwhile() {
    // Missing `endwhile` followed by another top-level script used to
    // cause an infinite loop because `synchronize_statement` would
    // return without advancing past the `script` boundary token.
    let source = r"
script First #1:
    while true do
        Message 1
script Second #2:
    End
";
    let lexer = Lexer::new(source);
    let mut parser = Parser::new_fallible(lexer);
    let file = parser.parse_script_file().unwrap();
    let errors = std::mem::take(&mut parser.errors);

    assert!(
        !errors.is_empty(),
        "expected at least one error for missing endwhile"
    );
    assert_eq!(
        file.items
            .iter()
            .filter(|s| matches!(s.node, StatementKind::Function { .. }))
            .count(),
        2,
        "both scripts should still be parsed"
    );
}

#[test]
fn test_parse_command_call_style_multiple_args() {
    // Call-style commands like TeachMovesScreen(1, 1) should parse
    // correctly with multiple parenthesized arguments.
    let source = r"
script Test #1:
    TeachMovesScreen(1, 1)
    End
";
    let lexer = Lexer::new(source);
    let mut parser = Parser::new(lexer);
    let file = parser.parse_script_file().unwrap();
    let functions: Vec<_> = file
        .items
        .iter()
        .filter(|s| matches!(s.node, StatementKind::Function { .. }))
        .collect();
    assert_eq!(functions.len(), 1);
    match &functions[0].node {
        StatementKind::Function { body, .. } => {
            assert_eq!(body.len(), 2); // command + End
            match &body[0].node {
                StatementKind::ScriptCommand { command, args } => {
                    assert_eq!(command, "TeachMovesScreen");
                    assert_eq!(args.len(), 2);
                }
                _ => panic!("Expected ScriptCommand"),
            }
        }
        _ => panic!("Expected function"),
    }
}

#[test]
fn test_parse_module_ref_command_argument() {
    let source = r"
script Test #1:
    CallCommonScript scripts_common::NewGame
    End
";
    let lexer = Lexer::new(source);
    let mut parser = Parser::new(lexer);
    let file = parser.parse_script_file().unwrap();

    let StatementKind::Function { body, .. } = &file.items[0].node else {
        panic!("Expected function");
    };
    let StatementKind::ScriptCommand { command, args } = &body[0].node else {
        panic!("Expected script command");
    };
    assert_eq!(command, "CallCommonScript");
    assert!(matches!(
        &args[0].node,
        ExpressionKind::ModuleRef { module, label }
            if module == "scripts_common" && label == "NewGame"
    ));
    assert_eq!(
        args[0].to_macro_arg_source().unwrap(),
        "scripts_common::NewGame"
    );
}

#[test]
fn test_parse_numeric_module_ref_preserves_filename_stem() {
    let source = "script Test #1:\n    CallCommonScript 0211::NewGame\n    End\n";
    let mut parser = Parser::new(Lexer::new(source));
    let file = parser.parse_script_file().unwrap();

    let StatementKind::Function { body, .. } = &file.items[0].node else {
        panic!("Expected function");
    };
    let StatementKind::ScriptCommand { args, .. } = &body[0].node else {
        panic!("Expected script command");
    };
    assert!(matches!(
        &args[0].node,
        ExpressionKind::ModuleRef { module, label }
            if module == "0211" && label == "NewGame"
    ));
}

#[test]
fn test_parse_menu_builder_allows_multiline_chain_and_hover_tuple() {
    let source = r#"
script Test #1:
    Menu(
        ("Option", "Hover"
        ) -> Option,
        10 -> Other,
    )
    .scrollable()
    .cursor(1)
    .cancel(("Cancel", "Back") -> Cancel)
    End

Option:
    End
Other:
    End
Cancel:
    End
"#;
    let lexer = Lexer::new(source);
    let mut parser = Parser::new(lexer);
    let script_file = parser.parse_script_file().unwrap();

    let StatementKind::Function { body, .. } = &script_file.items[0].node else {
        panic!("Expected function");
    };
    let StatementKind::MenuBuilder {
        entries, config, ..
    } = &body[0].node
    else {
        panic!("Expected menu builder");
    };
    assert_eq!(entries.len(), 3);
    assert!(entries[0].hover.is_some());
    assert!(entries[2].hover.is_some());
    assert_eq!(config.scrollable, Some(true));
    assert!(matches!(
        config.cancel.as_ref().map(|expr| &expr.node),
        Some(ExpressionKind::Identifier(label)) if label == "Cancel"
    ));
    assert!(matches!(
        config.cursor.as_ref().map(|expr| &expr.node),
        Some(ExpressionKind::Number(1))
    ));
}

#[test]
fn test_parse_menu_builder_scrollable_accepts_explicit_false() {
    let source = r"
script Test #1:
    Menu(10 -> Target).scrollable(false)
    End

Target:
    End
";
    let lexer = Lexer::new(source);
    let mut parser = Parser::new(lexer);
    let script_file = parser.parse_script_file().unwrap();

    let StatementKind::Function { body, .. } = &script_file.items[0].node else {
        panic!("Expected function");
    };
    let StatementKind::MenuBuilder { config, .. } = &body[0].node else {
        panic!("Expected menu builder");
    };
    assert_eq!(config.scrollable, Some(false));
}

#[test]
fn test_parse_preprocessor_directives() {
    // #include and #define should be skipped at the top level.
    let source = "#include \"stdpoke.txt\"\n#define SOME_CONST 42\n\nscript Test #1:\n    Message SOME_CONST\n    End\n";
    let lexer = Lexer::new(source);
    let mut parser = Parser::new(lexer);
    let file = parser.parse_script_file().unwrap();
    assert!(
        parser.errors.is_empty(),
        "expected no errors for preprocessor directives"
    );
    assert_eq!(
        file.items
            .iter()
            .filter(|s| matches!(s.node, StatementKind::Function { .. }))
            .count(),
        1,
        "expected one script after preprocessor directives"
    );
}

#[test]
fn literal_expressions_parse_to_numbers() {
    let mut parser = Parser::new(Lexer::new("42 then"));
    let e = parser.parse_expression(Precedence::Lowest).unwrap();
    assert!(matches!(e.node, ExpressionKind::Number(42)));
    assert_eq!(parser.current_token().kind, TokenType::Then);

    let mut parser = Parser::new(Lexer::new("true"));
    let e = parser.parse_expression(Precedence::Lowest).unwrap();
    assert!(matches!(e.node, ExpressionKind::Number(1)));

    let mut parser = Parser::new(Lexer::new("false"));
    let e = parser.parse_expression(Precedence::Lowest).unwrap();
    assert!(matches!(e.node, ExpressionKind::Number(0)));
}

#[test]
fn infix_and_call_expressions_keep_their_operands() {
    let mut parser = Parser::new(Lexer::new("a + 3"));
    let e = parser.parse_expression(Precedence::Lowest).unwrap();
    match e.node {
        ExpressionKind::Infix { left, operator, right } => {
            assert!(matches!(&left.node, ExpressionKind::Identifier(n) if n == "a"));
            assert_eq!(operator, TokenType::Plus);
            assert!(matches!(right.node, ExpressionKind::Number(3)));
        }
        other => panic!("expected an infix expression, got {:?}", other),
    }

    let mut parser = Parser::new(Lexer::new("f()"));
    let e = parser.parse_expression(Precedence::Lowest).unwrap();
    match e.node {
        ExpressionKind::Call { function, args } => {
            assert!(matches!(&function.node, ExpressionKind::Identifier(n) if n == "f"));
            assert!(args.is_empty());
        }
        other => panic!("expected a call, got {:?}", other),
    }

    let mut parser = Parser::new(Lexer::new("f(7)"));
    let e = parser.parse_expression(Precedence::Lowest).unwrap();
    match e.node {
        ExpressionKind::Call { function, args } => {
            assert!(matches!(&function.node, ExpressionKind::Identifier(n) if n == "f"));
            assert_eq!(args.len(), 1);
            assert!(matches!(args[0].node, ExpressionKind::Number(7)));
        }
        other => panic!("expected a call, got {:?}", other),
    }
}

#[test]
fn block_at_its_end_token_is_empty() {
    let mut parser = Parser::new(Lexer::new("end"));
    let block = parser.parse_block(&[TokenType::End]).unwrap();
    assert!(block.is_empty());
    assert_eq!(parser.current_token().kind, TokenType::End);
}

#[test]
fn recovering_block_never_fails() {
    let mut parser = Parser::new_fallible(Lexer::new("if then\n)\nend"));
    let block = parser.parse_block(&[TokenType::End]);
    assert!(block.is_ok());
    assert!(!parser.errors.is_empty());
}

#[test]
fn header_slot_ranges() {
    let mut parser = Parser::new(Lexer::new("script Foo #[1-3]:\nEnd"));
    let file = parser.parse_script_file().unwrap();
    match &file.items[0].node {
        StatementKind::Function { headers, .. } => {
            let ids: Vec<Option<u32>> = headers.iter().map(|h| h.id).collect();
            assert_eq!(ids, vec![Some(1), Some(2), Some(3)]);
        }
        other => panic!("expected a script, got {:?}", other),
    }

    let mut parser = Parser::new(Lexer::new("script Foo #[3-1]:\nEnd"));
    let err = parser.parse_script_file().unwrap_err();
    assert_eq!(err.describe(), "Parse error: Range 3-1 is empty: end must be >= start");
}

fn shape(e: &rotom::compiler::ast::Expression) -> String {
    match &e.node {
        ExpressionKind::Number(n) => n.to_string(),
        ExpressionKind::Infix { left, operator, right } => {
            format!("({} {:?} {})", shape(left), operator, shape(right))
        }
        other => format!("{:?}", other),
    }
}

#[test]
fn operator_precedence_shapes_the_tree() {
    let mut parser = Parser::new(Lexer::new("1 + 2 * 3\n"));
    let e = parser.parse_expression(Precedence::Lowest).unwrap();
    assert_eq!(shape(&e), "(1 Plus (2 Mul 3))");

    let mut parser = Parser::new(Lexer::new("1 * 2 + 3\n"));
    let e = parser.parse_expression(Precedence::Lowest).unwrap();
    assert_eq!(shape(&e), "((1 Mul 2) Plus 3)");

    let mut parser = Parser::new(Lexer::new("1 - 2 - 3\n"));
    let e = parser.parse_expression(Precedence::Lowest).unwrap();
    assert_eq!(shape(&e), "((1 Minus 2) Minus 3)");
}

#[test]
fn if_statements_keep_their_branches() {
    let mut parser = Parser::new(Lexer::new("if 1 then endif"));
    let st = parser.parse_if().unwrap();
    match st.node {
        StatementKind::IfStatement { condition, body, elseblock } => {
            assert!(matches!(condition.node, ExpressionKind::Number(1)));
            assert!(body.is_empty());
            assert!(elseblock.is_none());
        }
        other => panic!("expected an if statement, got {:?}", other),
    }

    let mut parser = Parser::new(Lexer::new("if 0 then else\nFoo\nendif"));
    let st = parser.parse_if().unwrap();
    match st.node {
        StatementKind::IfStatement { body, elseblock, .. } => {
            assert!(body.is_empty());
            assert_eq!(elseblock.map(|b| b.len()), Some(1));
        }
        other => panic!("expected an if statement, got {:?}", other),
    }

    let mut parser = Parser::new(Lexer::new("if 1 then"));
    let err = parser.parse_if().unwrap_err();
    assert_eq!(
        err.describe(),
        "Parse error: Unexpected Token. Expected: keyword 'endif', found: end of file"
    );
}

#[test]
fn script_headers_keep_name_and_id() {
    let mut parser = Parser::new(Lexer::new("script Foo #7:\nEnd"));
    let st = parser.parse_function().unwrap();
    match st.node {
        StatementKind::Function { headers, .. } => {
            assert_eq!(headers[0].name, "Foo");
            assert_eq!(headers[0].id, Some(7));
        }
        other => panic!("expected a script, got {:?}", other),
    }
}

#[test]
fn empty_match_statement() {
    let mut parser = Parser::new(Lexer::new("match 3 with endmatch"));
    let st = parser.parse_match().unwrap();
    match st.node {
        StatementKind::MatchStatement { subject, cases, default } => {
            assert!(matches!(subject.node, ExpressionKind::Number(3)));
            assert!(cases.is_empty());
            assert!(default.is_none());
        }
        other => panic!("expected a match statement, got {:?}", other),
    }
}
