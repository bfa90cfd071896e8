use lox_rs::ast::{Ast, BinaryOp, Expr, Literal, Stmt};
use lox_rs::{join_errors, tokenize_and_parse};
use lox_rs::parser::{parse, ParseError, Parser};
use lox_rs::reader::Source;
use lox_rs::scanner::{is_ident, tokenize, ScanError, Scanner, Token, TokenType, Tokens};

#[test]
fn tokenize_it_works() {
    let tokens = tokenize(&Source {
        text: String::new(),
    })
    .expect("an empty program scans");
    assert_eq!(
        tokens,
        Tokens {
            tokens: vec![Token {
                value: TokenType::Eof,
                line: 1
            }]
        }
    );
}

fn source(text: &str) -> Source {
    Source {
        text: text.to_string(),
    }
}

fn token(value: TokenType) -> Token {
    Token { value, line: 1 }
}

#[test]
fn join_errors_writes_a_line_per_error() {
    let e = join_errors(vec!["first".to_string(), "second".to_string()]);
    assert_eq!(e.message, "first\nsecond\n");
    assert_eq!(join_errors(vec![]).message, "");
}

#[test]
fn tokenize_joins_every_scan_error() {
    let e = tokenize(&source("!+@\n12.")).expect_err("two lexemes are in error");
    assert_eq!(
        e.message,
        "[line: 1] Unexpected character \"@\".\n[line: 2] Got float with no decimals: '12.'\n"
    );
}

#[test]
fn scanned_tokens_end_with_one_eof_on_the_last_line() {
    let tokens = tokenize(&source("var a = \"x\ny\";\n// done\nprint a;\n"))
        .expect("the program scans")
        .tokens;
    let last = tokens.last().expect("at least one token");
    assert_eq!(last.value, TokenType::Eof);
    assert_eq!(last.line, 5);
    assert_eq!(
        tokens.iter().filter(|t| t.value == TokenType::Eof).count(),
        1
    );
    let lines: Vec<usize> = tokens.iter().map(|t| t.line).collect();
    assert_eq!(lines, vec![1, 1, 1, 2, 2, 4, 4, 4, 5]);
}

#[test]
fn an_unterminated_string_swallows_the_rest() {
    let errors = match Scanner::new(&source("+\"abc\n@ 1.")).scan_tokens() {
        Ok(_) => panic!("the string is never closed"),
        Err(errors) => errors,
    };
    assert_eq!(errors, vec![ScanError::UnterminatedString { line: 1 }]);
    assert_eq!(errors[0].message(), "[line: 1] Unterminated string started");
}

#[test]
fn identifiers_are_letters_and_underscores() {
    assert!(is_ident('a'));
    assert!(is_ident('Z'));
    assert!(is_ident('_'));
    assert!(!is_ident('1'));
    assert!(!is_ident('ñ'));
}

#[test]
fn token_kinds_print_as_debug_does() {
    assert_eq!(TokenType::Semicolon.debug_text(), format!("{:?}", TokenType::Semicolon));
    assert_eq!(TokenType::Eof.debug_text(), "Eof");
    let quoted = TokenType::String("a\"b\\c\nd".to_string());
    assert_eq!(quoted.debug_text(), "String(\"a\\\"b\\\\c\\nd\")");
    assert_eq!(quoted.debug_text(), format!("{:?}", quoted));
    let name = TokenType::Identifier("x".to_string());
    assert_eq!(name.debug_text(), "Identifier(\"x\")");
    assert_eq!(TokenType::Number("1.5".to_string()).debug_text(), "Number(\"1.5\")");
}

#[test]
fn parse_error_messages_name_the_token_found() {
    let unexpected = ParseError::Unexpected {
        found: TokenType::Semicolon,
        message: "Missing ')' after expression.".to_string(),
    };
    assert_eq!(unexpected.message(), "[Semicolon] Missing ')' after expression.");
    let bottom = ParseError::ExpectedExpression {
        found: TokenType::Comma,
    };
    assert_eq!(
        bottom.message(),
        "(bottom of table) Expected expression, got Comma"
    );
}

#[test]
fn a_grouping_left_open_is_reported_at_the_next_token() {
    let errors = match Parser::new(vec![
        token(TokenType::LeftParen),
        token(TokenType::True),
        token(TokenType::Semicolon),
        token(TokenType::Eof),
    ])
    .parse()
    {
        Ok(_) => panic!("the grouping is never closed"),
        Err(errors) => errors,
    };
    assert_eq!(
        errors,
        vec![ParseError::Unexpected {
            found: TokenType::Semicolon,
            message: "Missing ')' after expression.".to_string()
        }]
    );
}

#[test]
fn parsing_recovers_after_a_semicolon() {
    // `print ; print 1; 1 = 2; print (;` has three statements in error
    let errors = match Parser::new(vec![
        token(TokenType::Print),
        token(TokenType::Semicolon),
        token(TokenType::Print),
        token(TokenType::Number("1".to_string())),
        token(TokenType::Semicolon),
        token(TokenType::Number("1".to_string())),
        token(TokenType::Equal),
        token(TokenType::Number("2".to_string())),
        token(TokenType::Semicolon),
        token(TokenType::Print),
        token(TokenType::LeftParen),
        token(TokenType::Semicolon),
        token(TokenType::Eof),
    ])
    .parse()
    {
        Ok(_) => panic!("three statements are in error"),
        Err(errors) => errors,
    };
    let messages: Vec<String> = errors.iter().map(|e| e.message()).collect();
    assert_eq!(
        messages,
        vec![
            "(bottom of table) Expected expression, got Semicolon".to_string(),
            "[Semicolon] Invalid assignment target.".to_string(),
            "(bottom of table) Expected expression, got Semicolon".to_string(),
        ]
    );
}

#[test]
fn parsing_recovers_at_a_statement_keyword() {
    // `var = 1 var b;`: the error is at `=`, and parsing resumes at `var`
    let errors = match Parser::new(vec![
        token(TokenType::Var),
        token(TokenType::Equal),
        token(TokenType::Number("1".to_string())),
        token(TokenType::Var),
        token(TokenType::Identifier("b".to_string())),
        token(TokenType::Eof),
    ])
    .parse()
    {
        Ok(_) => panic!("both declarations are in error"),
        Err(errors) => errors,
    };
    let messages: Vec<String> = errors.iter().map(|e| e.message()).collect();
    assert_eq!(
        messages,
        vec![
            "[Equal] Missing variable name.".to_string(),
            "[Eof] Expected ';' after var declaration.".to_string(),
        ]
    );
}

#[test]
fn parse_joins_every_parse_error() {
    let tokens = tokenize(&source("print ;\nprint (1;")).expect("the program scans");
    let e = parse(tokens).expect_err("both statements are in error");
    assert_eq!(
        e.message,
        "(bottom of table) Expected expression, got Semicolon\n[Semicolon] Missing ')' after expression.\n"
    );
}

#[test]
fn source_text_scans_and_parses() {
    let tokens = tokenize(&source("var a = 1 * 2 + 3;\nprint a;")).expect("the program scans");
    let ast = parse(tokens).expect("the program parses");
    assert_eq!(
        ast,
        Ast {
            statements: vec![
                Stmt::Var {
                    name: "a".to_string(),
                    val: Some(Expr::Binary {
                        left: Box::new(Expr::Binary {
                            left: Box::new(Expr::Literal(Literal::Number("1".to_string()))),
                            op: BinaryOp::Mul,
                            right: Box::new(Expr::Literal(Literal::Number("2".to_string()))),
                        }),
                        op: BinaryOp::Add,
                        right: Box::new(Expr::Literal(Literal::Number("3".to_string()))),
                    }),
                },
                Stmt::Print(Expr::Variable("a".to_string())),
            ]
        }
    );
}

#[test]
fn a_product_binds_tighter_than_a_sum() {
    // `+` and `-` take a whole factor on each side: `1 + 2 * 3` is `1 + (2 * 3)`
    let tokens = tokenize(&source("var a = 1 + 2 * 3 - 4 / 2;")).expect("the program scans");
    let ast = parse(tokens).expect("the program parses");
    let num = |n: &str| Box::new(Expr::Literal(Literal::Number(n.to_string())));
    assert_eq!(
        ast,
        Ast {
            statements: vec![Stmt::Var {
                name: "a".to_string(),
                val: Some(Expr::Binary {
                    left: Box::new(Expr::Binary {
                        left: num("1"),
                        op: BinaryOp::Add,
                        right: Box::new(Expr::Binary {
                            left: num("2"),
                            op: BinaryOp::Mul,
                            right: num("3"),
                        }),
                    }),
                    op: BinaryOp::Sub,
                    right: Box::new(Expr::Binary {
                        left: num("4"),
                        op: BinaryOp::Div,
                        right: num("2"),
                    }),
                }),
            }]
        }
    );
}

#[test]
fn too_many_parameters_are_refused() {
    let mut tokens = vec![
        token(TokenType::Fun),
        token(TokenType::Identifier("f".to_string())),
        token(TokenType::LeftParen),
    ];
    for i in 0..256 {
        if i > 0 {
            tokens.push(token(TokenType::Comma));
        }
        tokens.push(token(TokenType::Identifier(format!("p{i}"))));
    }
    tokens.push(token(TokenType::RightParen));
    tokens.push(token(TokenType::LeftBrace));
    tokens.push(token(TokenType::RightBrace));
    tokens.push(token(TokenType::Eof));
    let errors = match Parser::new(tokens).parse() {
        Ok(_) => panic!("256 parameters are too many"),
        Err(errors) => errors,
    };
    assert_eq!(
        errors[0].message(),
        "[Identifier(\"p255\")] Can't have more than 255 parameters."
    );
}

#[test]
fn scanned_numbers_read_as_floats() {
    let tokens = tokenize(&source("1 2.5 30 007.250")).expect("the numbers scan");
    let mut values = vec![];
    for t in &tokens.tokens {
        if let TokenType::Number(text) = &t.value {
            values.push(text.parse::<f64>().expect("a scanned number reads as f64"));
        }
    }
    assert_eq!(values, vec![1.0, 2.5, 30.0, 7.25]);
}

#[test]
fn scan_errors_come_in_line_order() {
    let errors = match Scanner::new(&source("@\n\n# 1.\n$")).scan_tokens() {
        Ok(_) => panic!("three lexemes are in error"),
        Err(errors) => errors,
    };
    let messages: Vec<String> = errors.iter().map(|e| e.message()).collect();
    assert_eq!(
        messages,
        vec![
            "[line: 1] Unexpected character \"@\".".to_string(),
            "[line: 3] Unexpected character \"#\".".to_string(),
            "[line: 3] Got float with no decimals: '1.'".to_string(),
            "[line: 4] Unexpected character \"$\".".to_string(),
        ]
    );
}

#[test]
fn scanned_tokens_always_parse_without_panicking() {
    for text in ["print", "(", "fun", "var x = ;", "for (;;", "}", ""] {
        let tokens = tokenize(&source(text)).expect("the text scans");
        let _ = Parser::new(tokens.tokens).parse();
    }
}

#[test]
fn tokens_show_their_kind_and_line() {
    let t = Token {
        value: TokenType::Semicolon,
        line: 3,
    };
    assert_eq!(t.display_text(), "Semicolon @ line 3");
    let t = Token {
        value: TokenType::Identifier("abc".to_string()),
        line: 12,
    };
    assert_eq!(t.display_text(), "Identifier(\"abc\") @ line 12");
}

#[test]
fn operators_are_written_as_in_lox() {
    assert_eq!(BinaryOp::Sub.symbol(), "-");
    assert_eq!(BinaryOp::Lte.symbol(), "<=");
    assert_eq!(BinaryOp::Ne.symbol(), "!=");
    assert_eq!(lox_rs::ast::UnaryOp::Not.symbol(), "!");
}

#[test]
fn statements_copy_all_the_way_down() {
    let tokens = tokenize(&source(
        "fun f(a, b) { if (a) print g(a, b); else { var c = -b; } while (a or b) a = nil; }",
    ))
    .expect("the program scans");
    let ast = parse(tokens).expect("the program parses");
    let copies: Vec<Stmt> = ast.statements.iter().map(|s| s.duplicate()).collect();
    assert_eq!(copies, ast.statements);
}

#[test]
fn every_statement_and_error_takes_a_token_of_its_own() {
    let text = "print 1; print ; var = 2; { print 3; } ) ( fun f() {}";
    let tokens = tokenize(&source(text)).expect("the text scans");
    let count = tokens.tokens.len();
    let reported = match Parser::new(tokens.tokens).parse() {
        Ok(ast) => ast.statements.len(),
        Err(errors) => errors.len(),
    };
    assert!(reported >= 1);
    assert!(reported <= count);
}

#[test]
fn scanning_errors_come_before_parsing_errors() {
    let e = tokenize_and_parse(&source("print ; @")).expect_err("the text has errors");
    assert_eq!(e.message, "[line: 1] Unexpected character \"@\".\n");
    let e = tokenize_and_parse(&source("print ;")).expect_err("the statement is in error");
    assert_eq!(
        e.message,
        "(bottom of table) Expected expression, got Semicolon\n"
    );
    let ast = tokenize_and_parse(&source("print nil;")).expect("the program parses");
    assert_eq!(
        ast,
        Ast {
            statements: vec![Stmt::Print(Expr::Literal(Literal::Nil))]
        }
    );
}

#[test]
fn eof_is_on_one_plus_the_number_of_newlines() {
    let text = "var a = \"x\ny\"; // c\n\n\tprint a;\n";
    let tokens = tokenize(&source(text)).expect("the program scans").tokens;
    let newlines = text.chars().filter(|c| *c == '\n').count();
    assert_eq!(tokens.last().expect("an Eof").line, 1 + newlines);
    // an unclosed string does not count its newlines
    let errors_line = match Scanner::new(&source("\"a\nb\nc")).scan_tokens() {
        Ok(_) => panic!("the string is never closed"),
        Err(errors) => errors[0].message(),
    };
    assert_eq!(errors_line, "[line: 1] Unterminated string started");
}
