use dppi::ast::{Expression, ParserError, Statement};
use dppi::environment::Environment;
use dppi::lexer::Lexer;
use dppi::object::Object;
use dppi::parser::{literal_to_int, Parser};
use dppi::token::TokenKind;

fn test_tokenization_iter(input: &str, tests: Vec<(TokenKind, &str)>) {
    let mut lexer = Lexer::new(input);

    for (i, (expected_token, expected_literal)) in tests.iter().enumerate() {
        let tok = lexer.next_token();

        assert_eq!(
            &tok.kind, expected_token,
            "Test {} - wrong 'kind'. Expected={:#?}, Got={:#?}",
            i, expected_token, tok.kind
        );

        assert_eq!(
            &tok.literal, expected_literal,
            "Test {} - wrong 'literal'. Expected={}, Got={}",
            i, expected_literal, tok.literal
        );
    }
}

#[test]
fn punct() {
    let input = "={}";

    let tests = vec![
        (TokenKind::Assign, "="),
        (TokenKind::LeftBrace, "{"),
        (TokenKind::RightBrace, "}"),
        (TokenKind::Eof, ""),
    ];

    test_tokenization_iter(input, tests)
}

#[test]
fn kwd() {
    let input = r#"
            scope
            print
        "#;

    let tests = vec![
        (TokenKind::Scope, "scope"),
        (TokenKind::Print, "print"),
        (TokenKind::Eof, ""),
    ];

    test_tokenization_iter(input, tests)
}

#[test]
fn identifiers_numbers_and_illegal() {
    let tests = vec![
        (TokenKind::Identifier, "_x1"),
        (TokenKind::Assign, "="),
        (TokenKind::Integer, "0042"),
        (TokenKind::Identifier, "scoped"),
        (TokenKind::Identifier, "été_2"),
        (TokenKind::Illegal, "-"),
        (TokenKind::Integer, "7"),
        (TokenKind::Identifier, "ab"),
        (TokenKind::Illegal, "\0"),
        (TokenKind::Eof, ""),
    ];
    test_tokenization_iter("_x1=0042 scoped\u{3000}été_2 -7ab\0", tests)
}

#[test]
fn end_of_input_repeats() {
    let mut lexer = Lexer::new("a");
    assert_eq!(lexer.next_token().kind, TokenKind::Identifier);
    for _ in 0..5 {
        let t = lexer.next_token();
        assert_eq!(t.kind, TokenKind::Eof);
        assert_eq!(t.literal, "");
    }
}

#[test]
fn scanning_always_reaches_end() {
    let input = "x = 1 { } ? print scope 99 \u{2028}";
    let mut lexer = Lexer::new(input);
    let mut steps = 0;
    while lexer.next_token().kind != TokenKind::Eof {
        steps += 1;
        assert!(steps <= input.chars().count());
    }
    assert_eq!(steps, 9);
}

#[test]
fn cursor_helpers() {
    let mut lexer = Lexer::new("  ab1_ 123x");
    lexer.skip_whitespace();
    assert_eq!(lexer.current_char(), 'a');
    assert_eq!(lexer.peek_char(), 'b');
    assert_eq!(lexer.eat_identifier(), "ab1_");
    lexer.eat_char();
    assert_eq!(lexer.eat_number(), "123");
    assert_eq!(lexer.current_char(), 'x');
    assert_eq!(lexer.peek_char(), '\0');
    lexer.eat_char();
    assert_eq!(lexer.current_char(), '\0');
    assert_eq!(lexer.eat_identifier(), "");
    assert_eq!(lexer.eat_number(), "");
}

#[test]
fn peek_looks_one_ahead() {
    let lexer = Lexer::new("ab");
    assert_eq!(lexer.current_char(), 'a');
    assert_eq!(lexer.peek_char(), 'b');
}

#[test]
fn eat_char_always_moves_on() {
    let mut lexer = Lexer::new("");
    lexer.eat_char();
    assert_eq!(lexer.cur, 1);
    assert_eq!(lexer.current_char(), '\0');
    assert_eq!(lexer.peek_char(), '\0');
    assert_eq!(lexer.next_token().kind, TokenKind::Eof);
}

#[test]
fn eat_identifier_stops_at_non_word() {
    let mut lexer = Lexer::new("=x");
    assert_eq!(lexer.eat_identifier(), "");
    assert_eq!(lexer.cur, 0);
}

#[test]
fn keyword_lookup() {
    assert_eq!(TokenKind::lookup_identifier("scope"), TokenKind::Scope);
    assert_eq!(TokenKind::lookup_identifier("print"), TokenKind::Print);
    assert_eq!(TokenKind::lookup_identifier("prints"), TokenKind::Identifier);
    assert_eq!(TokenKind::lookup_identifier(""), TokenKind::Identifier);
}

#[test]
fn literal_conversion() {
    assert_eq!(literal_to_int("0").unwrap(), 0);
    assert_eq!(literal_to_int("120").unwrap(), 120);
    assert_eq!(literal_to_int("9223372036854775807").unwrap(), isize::MAX);
    assert!(matches!(literal_to_int(""), Err(ParserError::ParseIntError(_))));
    assert!(matches!(literal_to_int("1a"), Err(ParserError::ParseIntError(_))));
    assert!(matches!(
        literal_to_int("99999999999999999999"),
        Err(ParserError::IntConversionError(_))
    ));
}

#[test]
fn parser_builds_tree() {
    let mut parser = Parser::new("a = 1 print a scope { b }");
    let program = parser.parse_program().unwrap();
    assert_eq!(
        program.0,
        vec![
            Statement::AssignStatement {
                name: "a".to_string(),
                value: Expression::IntegerLiteral(1)
            },
            Statement::PrintStatement(Expression::Identifier("a".to_string())),
            Statement::BlockStatement(vec![Statement::ExpressionStatement(
                Expression::Identifier("b".to_string())
            )]),
        ]
    );
    assert_eq!(parser.cur.kind, TokenKind::Eof);
}

#[test]
fn parser_lookahead() {
    let mut parser = Parser::new("x = 3");
    assert_eq!(parser.cur.kind, TokenKind::Identifier);
    assert_eq!(parser.next.kind, TokenKind::Assign);
    let t = parser.expect_token(TokenKind::Assign).unwrap();
    assert_eq!(t.literal, "=");
    assert!(parser.expect_token(TokenKind::Assign).is_err());
    parser.eat_token();
    assert_eq!(parser.cur.literal, "3");
}

#[test]
fn environment_scopes() {
    let mut root = Environment::new();
    root.set("a".to_string(), Object::IntegerValue(1));
    root.set("a".to_string(), Object::IntegerValue(2));
    assert_eq!(root.store.len(), 1);
    let mut inner = Environment::new();
    inner.outer = Some(Box::new(root));
    assert_eq!(inner.get("a"), Object::IntegerValue(2));
    inner.set("a".to_string(), Object::IntegerValue(9));
    assert_eq!(inner.get("a"), Object::IntegerValue(9));
    assert_eq!(inner.outer.as_ref().unwrap().get("a"), Object::IntegerValue(2));
    assert_eq!(inner.get("b"), Object::NullValue);
}

#[test]
fn source_text_of_trees() {
    let mut parser = Parser::new("a = 1 print -2 scope { b print c scope { } }");
    // `-` is not part of the grammar
    assert!(parser.parse_program().is_err());

    let mut parser = Parser::new("a = 1 print x scope { b print c scope { } }");
    let program = parser.parse_program().unwrap();
    assert_eq!(program.to_string(), "a = 1print x{bprint c{}}");
    assert_eq!(program.0[0].to_string(), "a = 1");
    assert_eq!(Expression::IntegerLiteral(-31).to_string(), "-31");
    assert_eq!(Expression::Identifier("k".to_string()).to_string(), "k");
}

#[test]
fn token_kind_names() {
    assert_eq!(TokenKind::Illegal.to_string(), "illegal");
    assert_eq!(TokenKind::Eof.to_string(), "eof");
    assert_eq!(TokenKind::Identifier.to_string(), "identifier");
    assert_eq!(TokenKind::Integer.to_string(), "integer");
    assert_eq!(TokenKind::Assign.to_string(), "=");
    assert_eq!(TokenKind::LeftBrace.to_string(), "{");
    assert_eq!(TokenKind::RightBrace.to_string(), "}");
    assert_eq!(TokenKind::Scope.to_string(), "scope");
    assert_eq!(TokenKind::Print.to_string(), "print");
}
