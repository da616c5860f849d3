use rotom::compiler::lexer::Lexer;
use rotom::compiler::token::{Token, TokenType};

#[test]
fn test_lexer_basic_tokens() {
    let source = "# , . : :: = == ( ) && || ! != < <= > >= + - * \n";
    let mut lexer = Lexer::new(source);
    let expected_tokens = vec![
        TokenType::Hash,
        TokenType::Comma,
        TokenType::Dot,
        TokenType::Colon,
        TokenType::DoubleColon,
        TokenType::Assign,
        TokenType::Equal,
        TokenType::LParen,
        TokenType::RParen,
        TokenType::And,
        TokenType::Or,
        TokenType::Not,
        TokenType::NotEqual,
        TokenType::LesserThan,
        TokenType::LesserEqual,
        TokenType::GreaterThan,
        TokenType::GreaterEqual,
        TokenType::Plus,
        TokenType::Minus,
        TokenType::Mul,
        TokenType::Newline,
    ];
    for expected in expected_tokens {
        let token = lexer.next_token();
        assert_eq!(token.kind, expected);
    }
    let eof_token = lexer.next_token();
    assert_eq!(eof_token.kind, TokenType::EOF);
}

#[test]
fn test_numeric_module_stem_preserves_leading_zeroes() {
    let tokens = Lexer::new("0211::NewGame").tokenize();
    assert_eq!(
        tokens.iter().map(|token| &token.kind).collect::<Vec<_>>(),
        vec![
            &TokenType::Identifier("0211".to_string()),
            &TokenType::DoubleColon,
            &TokenType::Identifier("NewGame".to_string()),
        ]
    );
}

#[test]
fn test_lexer_identifiers_and_numbers() {
    let source = "script myFunc123 alias_var 0 42 0x1A3F";
    let mut lexer = Lexer::new(source);
    let expected_tokens = vec![
        TokenType::Script,
        TokenType::Identifier("myFunc123".to_string()),
        TokenType::Identifier("alias_var".to_string()),
        TokenType::Num(0),
        TokenType::Num(42),
        TokenType::Num(6719),
    ];
    for expected in expected_tokens {
        let token = lexer.next_token();
        assert_eq!(token.kind, expected);
    }
    let eof_token = lexer.next_token();
    assert_eq!(eof_token.kind, TokenType::EOF);
}

#[test]
fn test_lexer_comments_and_whitespace() {
    let source = "  // This is a comment\n  /* Block \n comment */  identifier  ";
    let mut lexer = Lexer::new(source);
    let token = lexer.next_token();
    assert_eq!(token.kind, TokenType::Identifier("identifier".to_string()));
    let eof_token = lexer.next_token();
    assert_eq!(eof_token.kind, TokenType::EOF);
}

#[test]
fn test_lexer_dot_names() {
    // Dot-prefixed names are normalised to Identifier with the dot in the name.
    let source = ".localLabel: .anotherLabel";
    let mut lexer = Lexer::new(source);
    let token1 = lexer.next_token();
    assert_eq!(
        token1.kind,
        TokenType::Identifier(".localLabel".to_string())
    );
    let token2 = lexer.next_token();
    assert_eq!(token2.kind, TokenType::Colon);
    let token3 = lexer.next_token();
    assert_eq!(
        token3.kind,
        TokenType::Identifier(".anotherLabel".to_string())
    );
    let eof_token = lexer.next_token();
    assert_eq!(eof_token.kind, TokenType::EOF);
}

#[test]
fn test_lexer_iterator() {
    let source = "script test";
    let lexer = Lexer::new(source);
    let tokens: Vec<Token> = lexer.tokenize();
    assert_eq!(tokens.len(), 2);
    assert_eq!(tokens[0].kind, TokenType::Script);
    assert_eq!(tokens[1].kind, TokenType::Identifier("test".to_string()));
}

#[test]
fn test_lexer_tokenize() {
    let source = "if x then return endif";
    let tokens = Lexer::new(source).tokenize();
    assert_eq!(tokens.len(), 5);
    assert_eq!(tokens[0].kind, TokenType::If);
    assert_eq!(tokens[1].kind, TokenType::Identifier("x".to_string()));
    assert_eq!(tokens[2].kind, TokenType::Then);
    assert_eq!(tokens[3].kind, TokenType::Return);
    assert_eq!(tokens[4].kind, TokenType::EndIf);
}

#[test]
fn test_lexer_keywords() {
    let source = "if then else endif while do endwhile end endmovement return jump true false";
    let mut lexer = Lexer::new(source);
    let expected_tokens = vec![
        TokenType::If,
        TokenType::Then,
        TokenType::Else,
        TokenType::EndIf,
        TokenType::While,
        TokenType::Do,
        TokenType::EndWhile,
        TokenType::End,
        TokenType::EndMovement,
        TokenType::Return,
        TokenType::Jump,
        TokenType::True,
        TokenType::False,
    ];
    for expected in expected_tokens {
        let token = lexer.next_token();
        assert_eq!(token.kind, expected);
    }
    let eof_token = lexer.next_token();
    assert_eq!(eof_token.kind, TokenType::EOF);
}

#[test]
fn test_lexer_accepts_legacy_control_spellings_and_aliases() {
    let source = "End EndMovement Return Jump GoTo eNdMoVeMeNt";
    let mut lexer = Lexer::new(source);
    let expected_tokens = vec![
        TokenType::End,
        TokenType::EndMovement,
        TokenType::Return,
        TokenType::Jump,
        TokenType::Jump,
        TokenType::EndMovement,
    ];
    for expected in expected_tokens {
        let token = lexer.next_token();
        assert_eq!(token.kind, expected);
    }
    let eof_token = lexer.next_token();
    assert_eq!(eof_token.kind, TokenType::EOF);
}

#[test]
fn test_lexer_accepts_case_insensitive_booleans() {
    let source = "TRUE FALSE True False";
    let mut lexer = Lexer::new(source);

    assert_eq!(lexer.next_token().kind, TokenType::True);
    assert_eq!(lexer.next_token().kind, TokenType::False);
    assert_eq!(lexer.next_token().kind, TokenType::True);
    assert_eq!(lexer.next_token().kind, TokenType::False);
    assert_eq!(lexer.next_token().kind, TokenType::EOF);
}

#[test]
fn test_lexer_errors() {
    let source = "@ $ ^";
    let mut lexer = Lexer::new(source);
    let expected_errors = vec![
        "unexpected token: @",
        "unexpected token: $",
        "unexpected token: ^",
    ];
    for expected_msg in expected_errors {
        let token = lexer.next_token();
        match token.kind {
            TokenType::Error(msg) => assert_eq!(msg, expected_msg),
            _ => panic!("Expected an error token"),
        }
    }
    let eof_token = lexer.next_token();
    assert_eq!(eof_token.kind, TokenType::EOF);
}

#[test]
fn test_unclosed_block_comment_is_error() {
    let mut lexer = Lexer::new("script Main #1:\n    /* no terminator\n    End\n");

    assert_eq!(lexer.next_token().kind, TokenType::Script);
    assert_eq!(
        lexer.next_token().kind,
        TokenType::Identifier("Main".to_string())
    );
    assert_eq!(lexer.next_token().kind, TokenType::Hash);
    assert_eq!(lexer.next_token().kind, TokenType::Num(1));
    assert_eq!(lexer.next_token().kind, TokenType::Colon);
    assert_eq!(lexer.next_token().kind, TokenType::Newline);
    assert_eq!(
        lexer.next_token().kind,
        TokenType::Error("unclosed block comment".to_string())
    );
    assert_eq!(lexer.next_token().kind, TokenType::EOF);
}

#[test]
fn test_lexer_does_not_promote_partial_keyword_matches() {
    let source = "goto_if endish";
    let mut lexer = Lexer::new(source);

    assert_eq!(
        lexer.next_token().kind,
        TokenType::Identifier("goto_if".to_string())
    );
    assert_eq!(
        lexer.next_token().kind,
        TokenType::Identifier("endish".to_string())
    );
    assert_eq!(lexer.next_token().kind, TokenType::EOF);
}

#[test]
fn test_simple_script() {
    let source = "
        script myFunc:
            alias_var = 42
            if alias_var >= 10 then
                Return
            endif
        End
        ";
    let mut lexer = Lexer::new(source);
    let mut tokens = Vec::new();
    loop {
        let token = lexer.next_token();
        if token.kind == TokenType::EOF {
            break;
        }
        tokens.push(token.kind);
    }
    let expected_tokens = vec![
        TokenType::Newline,
        TokenType::Script,
        TokenType::Identifier("myFunc".to_string()),
        TokenType::Colon,
        TokenType::Newline,
        TokenType::Identifier("alias_var".to_string()),
        TokenType::Assign,
        TokenType::Num(42),
        TokenType::Newline,
        TokenType::If,
        TokenType::Identifier("alias_var".to_string()),
        TokenType::GreaterEqual,
        TokenType::Num(10),
        TokenType::Then,
        TokenType::Newline,
        TokenType::Return,
        TokenType::Newline,
        TokenType::EndIf,
        TokenType::Newline,
        TokenType::End,
        TokenType::Newline,
    ];
    assert_eq!(tokens, expected_tokens);
}

#[test]
fn test_full_example_file() {
    let source = "
        // Example script
        script example
            /* Initialize variable */
            count = 0
            while count < 10 do
                count = count + 1
            endwhile
        End

        script anotherExample #1
            alias 0xFF as maxCount
            if maxCount == 255 then
                Jump .start
            else
                ApplyMovement sampleMovement
                WaitMovement
                Return
            endif
        End

        movement sampleMovement
            WalkNorth 10
        EndMovement
        ";
    let mut lexer = Lexer::new(source);
    let mut tokens = Vec::new();
    loop {
        let token = lexer.next_token();
        if token.kind == TokenType::EOF {
            break;
        }
        tokens.push(token.kind);
    }
    let expected_tokens = vec![
        TokenType::Newline,
        TokenType::Script,
        TokenType::Identifier("example".to_string()),
        TokenType::Newline,
        TokenType::Newline,
        TokenType::Identifier("count".to_string()),
        TokenType::Assign,
        TokenType::Num(0),
        TokenType::Newline,
        TokenType::While,
        TokenType::Identifier("count".to_string()),
        TokenType::LesserThan,
        TokenType::Num(10),
        TokenType::Do,
        TokenType::Newline,
        TokenType::Identifier("count".to_string()),
        TokenType::Assign,
        TokenType::Identifier("count".to_string()),
        TokenType::Plus,
        TokenType::Num(1),
        TokenType::Newline,
        TokenType::EndWhile,
        TokenType::Newline,
        TokenType::End,
        TokenType::Newline,
        TokenType::Newline,
        TokenType::Script,
        TokenType::Identifier("anotherExample".to_string()),
        TokenType::Hash,
        TokenType::Num(1),
        TokenType::Newline,
        TokenType::Alias,
        TokenType::Num(255),
        TokenType::As,
        TokenType::Identifier("maxCount".to_string()),
        TokenType::Newline,
        TokenType::If,
        TokenType::Identifier("maxCount".to_string()),
        TokenType::Equal,
        TokenType::Num(255),
        TokenType::Then,
        TokenType::Newline,
        TokenType::Jump,
        TokenType::Identifier(".start".to_string()),
        TokenType::Newline,
        TokenType::Else,
        TokenType::Newline,
        TokenType::Identifier("ApplyMovement".to_string()),
        TokenType::Identifier("sampleMovement".to_string()),
        TokenType::Newline,
        TokenType::Identifier("WaitMovement".to_string()),
        TokenType::Newline,
        TokenType::Return,
        TokenType::Newline,
        TokenType::EndIf,
        TokenType::Newline,
        TokenType::End,
        TokenType::Newline,
        TokenType::Newline,
        TokenType::Identifier("movement".to_string()),
        TokenType::Identifier("sampleMovement".to_string()),
        TokenType::Newline,
        TokenType::Identifier("WalkNorth".to_string()),
        TokenType::Num(10),
        TokenType::Newline,
        TokenType::EndMovement,
        TokenType::Newline,
    ];
    assert_eq!(tokens, expected_tokens);
}

fn seg_contents(kind: TokenType) -> Vec<String> {
    match kind {
        TokenType::String(segs) => segs.into_iter().map(|(s, _)| s).collect(),
        _ => panic!("expected String token"),
    }
}

#[test]
fn string_literal_plain() {
    let mut lexer = Lexer::new(r#""hello world""#);
    assert_eq!(seg_contents(lexer.next_token().kind), vec!["hello world"]);
    assert_eq!(lexer.next_token().kind, TokenType::EOF);
}

#[test]
fn string_literal_escaped_quote_emits_bracket_alias() {
    // \" inside a string must produce the chatot alias ["] for U+201C,
    // not a raw ASCII double-quote (which has no charmap entry).
    let mut lexer = Lexer::new(r#""say \" something""#);
    assert_eq!(
        seg_contents(lexer.next_token().kind),
        vec![r#"say ["] something"#]
    );
    assert_eq!(lexer.next_token().kind, TokenType::EOF);
}

#[test]
fn string_literal_multiline_produces_two_segments() {
    // Real newlines split the string into segments so each can be
    // measured independently for dialog width warnings.
    let src = "\"hello\nworld\"";
    let mut lexer = Lexer::new(src);
    assert_eq!(
        seg_contents(lexer.next_token().kind),
        vec!["hello", "world"]
    );
    assert_eq!(lexer.next_token().kind, TokenType::EOF);
}

#[test]
fn string_literal_multiline_strips_continuation_indent() {
    // Leading whitespace on the continuation line is consumed, so editor
    // auto-indent doesn't pollute the segment content.
    let src = "\"first line\n    second line\"";
    let mut lexer = Lexer::new(src);
    assert_eq!(
        seg_contents(lexer.next_token().kind),
        vec!["first line", "second line"]
    );
    assert_eq!(lexer.next_token().kind, TokenType::EOF);
}

#[test]
fn string_literal_explicit_escape_before_newline_preserved() {
    // An explicit chatot escape (\r) before a real newline ends the current
    // segment; the escape stays with that segment.
    let src = "\"line one\\r\n    line two\"";
    let mut lexer = Lexer::new(src);
    assert_eq!(
        seg_contents(lexer.next_token().kind),
        vec![r"line one\r", "line two"]
    );
    assert_eq!(lexer.next_token().kind, TokenType::EOF);
}

#[test]
fn string_literal_multiline_segment_offsets_are_recorded() {
    // Verify that each segment carries the correct source byte offset so
    // the analyser can produce precise warning spans.
    let src = "\"abc\ndef\"";
    //          0123456789
    //          "abc\ndef"
    //           ^      ^-- closing " at 8
    //           1 = start of first segment (after opening ")
    //           5 = start of second segment (after \n at 4)
    let mut lexer = Lexer::new(src);
    if let TokenType::String(segs) = lexer.next_token().kind {
        assert_eq!(segs[0].1, 1); // 'a' is at byte 1
        assert_eq!(segs[1].1, 5); // 'd' is at byte 5 (after " a b c \n)
    } else {
        panic!("expected String token");
    }
}

#[test]
fn string_literal_escaped_quote_terminates_correctly() {
    // The character after \" must still be part of the same string, not
    // start a new token.
    let mut lexer = Lexer::new(r#""a\"b" End"#);
    assert_eq!(seg_contents(lexer.next_token().kind), vec![r#"a["]b"#]);
    assert_eq!(lexer.next_token().kind, TokenType::End);
    assert_eq!(lexer.next_token().kind, TokenType::EOF);
}

#[test]
fn dotted_keywords_keep_their_spelling() {
    let mut l = Lexer::new(".end: .End .foo");
    assert_eq!(l.next_token().kind, TokenType::Identifier(".end".to_string()));
    assert_eq!(l.next_token().kind, TokenType::Colon);
    assert_eq!(l.next_token().kind, TokenType::Identifier(".End".to_string()));
    assert_eq!(l.next_token().kind, TokenType::Identifier(".foo".to_string()));
}

#[test]
fn read_integer_on_a_fresh_lexer() {
    assert_eq!(Lexer::new("x1A3F").read_integer('0'), TokenType::Num(6719));
    assert_eq!(
        Lexer::new("211::NewGame").read_integer('0'),
        TokenType::Identifier("0211".to_string())
    );
    assert!(matches!(Lexer::new("xFFFFFFFF").read_integer('0'), TokenType::Error(_)));
    assert_eq!(
        Lexer::new("x;").read_integer('0'),
        TokenType::Error("Invalid hex literal".to_string())
    );
    assert_eq!(Lexer::new("2 x").read_integer('4'), TokenType::Num(42));
}
