use lox_rs::ast::{Ast, BinaryOp, Expr, FnDefn, Literal, LogicalOp, Stmt, UnaryOp};
use lox_rs::parser::{ParseError, Parser};
use lox_rs::scanner::{Token, TokenType};

/// helper for more legible token-heavy tests
fn token(value: TokenType) -> Token {
    Token { value, line: 1 }
}

fn parse(tokens: Vec<Token>) -> Ast {
    Parser::new(tokens)
        .parse()
        .expect("this method should return Ok(), got Err()")
}

fn fail_parse(tokens: Vec<Token>) -> Vec<ParseError> {
    match Parser::new(tokens).parse() {
        Ok(_) => panic!("this method should return Err()"),
        Err(errors) => errors,
    }
}

/// Checks that an error's message contains `msg`, ignoring case.
fn assert_contains(err: &ParseError, msg: &str) {
    let input = err.message().to_lowercase();
    let substr = &msg.to_lowercase();
    assert!(
        input.contains(substr),
        "expected \"{input}\" to contain \"{substr}\""
    )
}

/// A number literal as the parser keeps it: the digits it was written with,
/// which must denote `value`.
fn num(text: &str, value: f64) -> Literal {
    assert_eq!(text.parse::<f64>().unwrap(), value);
    Literal::Number(text.to_string())
}

#[test]
fn it_parses_basic_nil() {
    let result = parse(vec![
        token(TokenType::Nil),
        token(TokenType::Semicolon),
        token(TokenType::Eof),
    ]);
    assert_eq!(
        result,
        Ast {
            statements: vec![Stmt::Expression(Expr::Literal(Literal::Nil))]
        }
    )
}

#[test]
fn it_parses_basic_bool() {
    let result = parse(vec![
        token(TokenType::False),
        token(TokenType::Semicolon),
        token(TokenType::Eof),
    ]);
    assert_eq!(
        result,
        Ast {
            statements: vec![Stmt::Expression(Expr::Literal(Literal::False))]
        }
    )
}

#[test]
fn it_parses_basic_string() {
    let result = parse(vec![
        token(TokenType::String("cool".to_string())),
        token(TokenType::Semicolon),
        token(TokenType::Eof),
    ]);
    assert_eq!(
        result,
        Ast {
            statements: vec![Stmt::Expression(Expr::Literal(Literal::String(
                "cool".to_string()
            )))]
        }
    )
}

#[test]
fn it_parses_basic_int() {
    let result = parse(vec![
        token(TokenType::Number("123".to_string())),
        token(TokenType::Semicolon),
        token(TokenType::Eof),
    ]);
    assert_eq!(
        result,
        Ast {
            statements: vec![Stmt::Expression(Expr::Literal(num("123", 123.0)))]
        }
    )
}

#[test]
fn it_parses_basic_float() {
    let result = parse(vec![
        token(TokenType::Number("123.456".to_string())),
        token(TokenType::Semicolon),
        token(TokenType::Eof),
    ]);
    assert_eq!(
        result,
        Ast {
            statements: vec![Stmt::Expression(Expr::Literal(num("123.456", 123.456)))]
        }
    )
}

#[test]
fn it_parses_basic_grouping() {
    let result = parse(vec![
        token(TokenType::LeftParen),
        token(TokenType::True),
        token(TokenType::RightParen),
        token(TokenType::Semicolon),
        token(TokenType::Eof),
    ]);
    assert_eq!(
        result,
        Ast {
            statements: vec![Stmt::Expression(Expr::Grouping(
                Expr::Literal(Literal::True).into()
            ))]
        }
    )
}

#[test]
fn it_parses_a_function_call_without_args() {
    let result = parse(vec![
        token(TokenType::Identifier("cool".to_string())),
        token(TokenType::LeftParen),
        token(TokenType::RightParen),
        token(TokenType::Semicolon),
        token(TokenType::Eof),
    ]);
    assert_eq!(
        result,
        Ast {
            statements: vec![Stmt::Expression(Expr::Call {
                callee: Expr::Variable("cool".to_string()).into(),
                arguments: vec![]
            })]
        }
    )
}

#[test]
fn it_parses_a_function_call_with_2_args() {
    let result = parse(vec![
        token(TokenType::Identifier("add".to_string())),
        token(TokenType::LeftParen),
        token(TokenType::Number("1".to_string())),
        token(TokenType::Comma),
        token(TokenType::Number("2".to_string())),
        token(TokenType::RightParen),
        token(TokenType::Semicolon),
        token(TokenType::Eof),
    ]);
    assert_eq!(
        result,
        Ast {
            statements: vec![Stmt::Expression(Expr::Call {
                callee: Expr::Variable("add".to_string()).into(),
                arguments: vec![
                    Expr::Literal(num("1", 1.0)),
                    Expr::Literal(num("2", 2.0))
                ]
            })]
        }
    )
}

#[test]
fn it_parses_chained_function_calls() {
    let result = parse(vec![
        token(TokenType::Identifier("adder".to_string())),
        token(TokenType::LeftParen),
        token(TokenType::Number("1".to_string())),
        token(TokenType::Comma),
        token(TokenType::Number("2".to_string())),
        token(TokenType::RightParen),
        token(TokenType::LeftParen),
        token(TokenType::RightParen),
        token(TokenType::Semicolon),
        token(TokenType::Eof),
    ]);
    assert_eq!(
        result,
        Ast {
            statements: vec![Stmt::Expression(Expr::Call {
                callee: Expr::Call {
                    callee: Expr::Variable("adder".to_string()).into(),
                    arguments: vec![
                        Expr::Literal(num("1", 1.0)),
                        Expr::Literal(num("2", 2.0))
                    ]
                }
                .into(),
                arguments: vec![]
            })]
        }
    )
}

#[test]
fn it_parses_nested_function_calls() {
    let result = parse(vec![
        token(TokenType::Identifier("f".to_string())),
        token(TokenType::LeftParen),
        token(TokenType::Identifier("g".to_string())),
        token(TokenType::LeftParen),
        token(TokenType::RightParen),
        token(TokenType::RightParen),
        token(TokenType::Semicolon),
        token(TokenType::Eof),
    ]);
    assert_eq!(
        result,
        Ast {
            statements: vec![Stmt::Expression(Expr::Call {
                callee: Expr::Variable("f".to_string()).into(),
                arguments: vec![Expr::Call {
                    callee: Expr::Variable("g".to_string()).into(),
                    arguments: vec![]
                }]
            })]
        }
    )
}

#[test]
fn it_parses_basic_function_declarations() {
    let result = parse(vec![
        token(TokenType::Fun),
        token(TokenType::Identifier("f".to_string())),
        token(TokenType::LeftParen),
        token(TokenType::RightParen),
        token(TokenType::LeftBrace),
        token(TokenType::RightBrace),
        token(TokenType::Eof),
    ]);
    assert_eq!(
        result,
        Ast {
            statements: vec![Stmt::Function(FnDefn {
                name: "f".into(),
                parameters: vec![],
                body: vec![]
            })]
        }
    )
}

#[test]
fn it_parses_function_declaration_with_args_and_body() {
    let result = parse(vec![
        token(TokenType::Fun),
        token(TokenType::Identifier("sum".to_string())),
        token(TokenType::LeftParen),
        token(TokenType::Identifier("a".to_string())),
        token(TokenType::Comma),
        token(TokenType::Identifier("b".to_string())),
        token(TokenType::RightParen),
        token(TokenType::LeftBrace),
        token(TokenType::Print),
        token(TokenType::Identifier("a".to_string())),
        token(TokenType::Plus),
        token(TokenType::Identifier("b".to_string())),
        token(TokenType::Semicolon),
        token(TokenType::RightBrace),
        token(TokenType::Identifier("sum".to_string())),
        token(TokenType::LeftParen),
        token(TokenType::Number("1".to_string())),
        token(TokenType::Comma),
        token(TokenType::Number("2".to_string())),
        token(TokenType::RightParen),
        token(TokenType::Semicolon),
        token(TokenType::Eof),
    ]);
    assert_eq!(
        result,
        Ast {
            statements: vec![
                Stmt::Function(FnDefn {
                    name: "sum".into(),
                    parameters: vec!["a".to_string(), "b".to_string()],
                    body: vec![Stmt::Print(Expr::Binary {
                        left: Expr::Variable("a".to_string()).into(),
                        op: BinaryOp::Add,
                        right: Expr::Variable("b".to_string()).into(),
                    })]
                }),
                Stmt::Expression(Expr::Call {
                    callee: Expr::Variable("sum".to_string()).into(),
                    arguments: vec![
                        Expr::Literal(num("1", 1.0)),
                        Expr::Literal(num("2", 2.0))
                    ],
                })
            ]
        }
    )
}

#[test]
fn it_parses_basic_unary() {
    let result = parse(vec![
        token(TokenType::Minus),
        token(TokenType::Number("3".to_string())),
        token(TokenType::Semicolon),
        token(TokenType::Eof),
    ]);
    assert_eq!(
        result,
        Ast {
            statements: vec![Stmt::Expression(Expr::Unary {
                op: UnaryOp::Neg,
                expr: Expr::Literal(num("3", 3.0)).into()
            })]
        }
    )
}

#[test]
fn it_parses_basic_binary() {
    let result = parse(vec![
        token(TokenType::Number("1".to_string())),
        token(TokenType::Slash),
        token(TokenType::Number("2".to_string())),
        token(TokenType::Semicolon),
        token(TokenType::Eof),
    ]);
    assert_eq!(
        result,
        Ast {
            statements: vec![Stmt::Expression(Expr::Binary {
                left: Expr::Literal(num("1", 1.0)).into(),
                op: BinaryOp::Div,
                right: Expr::Literal(num("2", 2.0)).into()
            })]
        }
    )
}

#[test]
fn it_parses_flat_nested_binary() {
    let result = parse(vec![
        token(TokenType::Number("1".to_string())),
        token(TokenType::Plus),
        token(TokenType::Number("2".to_string())),
        token(TokenType::Plus),
        token(TokenType::Number("3".to_string())),
        token(TokenType::Minus),
        token(TokenType::Number("4".to_string())),
        token(TokenType::Semicolon),
        token(TokenType::Eof),
    ]);
    assert_eq!(
        result,
        Ast {
            statements: vec![Stmt::Expression(Expr::Binary {
                left: Expr::Binary {
                    left: Expr::Binary {
                        left: Expr::Literal(num("1", 1.0)).into(),
                        op: BinaryOp::Add,
                        right: Expr::Literal(num("2", 2.0)).into(),
                    }
                    .into(),
                    op: BinaryOp::Add,
                    right: Expr::Literal(num("3", 3.0)).into(),
                }
                .into(),
                op: BinaryOp::Sub,
                right: Expr::Literal(num("4", 4.0)).into()
            })]
        }
    )
}

#[test]
fn it_parses_nested_unary() {
    let result = parse(vec![
        token(TokenType::Bang),
        token(TokenType::Bang),
        token(TokenType::Number("2".to_string())),
        token(TokenType::Semicolon),
        token(TokenType::Eof),
    ]);
    assert_eq!(
        result,
        Ast {
            statements: vec![Stmt::Expression(Expr::Unary {
                op: UnaryOp::Not,
                expr: Expr::Unary {
                    op: UnaryOp::Not,
                    expr: Expr::Literal(num("2", 2.0)).into()
                }
                .into()
            })]
        }
    )
}

#[test]
fn it_parses_nested_binary() {
    let result = parse(vec![
        token(TokenType::Number("3".to_string())),
        token(TokenType::Star),
        token(TokenType::LeftParen),
        token(TokenType::Number("2".to_string())),
        token(TokenType::Slash),
        token(TokenType::Number("4".to_string())),
        token(TokenType::RightParen),
        token(TokenType::Semicolon),
        token(TokenType::Eof),
    ]);
    assert_eq!(
        result,
        Ast {
            statements: vec![Stmt::Expression(Expr::Binary {
                left: Expr::Literal(num("3", 3.0)).into(),
                op: BinaryOp::Mul,
                right: Expr::Grouping(
                    Expr::Binary {
                        left: Expr::Literal(num("2", 2.0)).into(),
                        op: BinaryOp::Div,
                        right: Expr::Literal(num("4", 4.0)).into()
                    }
                    .into()
                )
                .into()
            })]
        }
    )
}

#[test]
fn it_mixes_unary_and_binary() {
    let result = parse(vec![
        token(TokenType::Minus),
        token(TokenType::Number("3".to_string())),
        token(TokenType::LessThanEqual),
        token(TokenType::LeftParen),
        token(TokenType::String("neat".to_string())),
        token(TokenType::EqualEqual),
        token(TokenType::Bang),
        token(TokenType::Nil),
        token(TokenType::RightParen),
        token(TokenType::Semicolon),
        token(TokenType::Eof),
    ]);
    assert_eq!(
        result,
        Ast {
            statements: vec![Stmt::Expression(Expr::Binary {
                left: Expr::Unary {
                    op: UnaryOp::Neg,
                    expr: Expr::Literal(num("3", 3.0)).into()
                }
                .into(),
                op: BinaryOp::Lte,
                right: Expr::Grouping(
                    Expr::Binary {
                        left: Expr::Literal(Literal::String("neat".to_string())).into(),
                        op: BinaryOp::Eq,
                        right: Expr::Unary {
                            op: UnaryOp::Not,
                            expr: Expr::Literal(Literal::Nil).into()
                        }
                        .into()
                    }
                    .into()
                )
                .into()
            })]
        }
    )
}

#[test]
fn it_parses_print_statements() {
    let result = parse(vec![
        token(TokenType::Print),
        token(TokenType::Number("3".to_string())),
        token(TokenType::Semicolon),
        token(TokenType::Eof),
    ]);
    assert_eq!(
        result,
        Ast {
            statements: vec![Stmt::Print(Expr::Literal(num("3", 3.0)))]
        }
    )
}

#[test]
fn it_parses_block_statements() {
    let result = parse(vec![
        token(TokenType::LeftBrace),
        token(TokenType::Print),
        token(TokenType::Number("2".to_string())),
        token(TokenType::Semicolon),
        token(TokenType::Print),
        token(TokenType::Number("3".to_string())),
        token(TokenType::Semicolon),
        token(TokenType::RightBrace),
        token(TokenType::Eof),
    ]);
    assert_eq!(
        result,
        Ast {
            statements: vec![Stmt::Block(vec![
                Stmt::Print(Expr::Literal(num("2", 2.0))),
                Stmt::Print(Expr::Literal(num("3", 3.0)))
            ])]
        }
    )
}

#[test]
fn it_parses_an_empty_block() {
    let result = parse(vec![
        token(TokenType::LeftBrace),
        token(TokenType::RightBrace),
        token(TokenType::Eof),
    ]);
    assert_eq!(
        result,
        Ast {
            statements: vec![Stmt::Block(vec![])]
        }
    )
}

#[test]
fn it_parses_if_statements_no_else() {
    let result = parse(vec![
        token(TokenType::If),
        token(TokenType::LeftParen),
        token(TokenType::Number("2".to_string())),
        token(TokenType::RightParen),
        token(TokenType::LeftBrace),
        Token {
            value: TokenType::Print,
            line: 2,
        },
        Token {
            value: TokenType::Number("3".to_string()),
            line: 2,
        },
        Token {
            value: TokenType::Semicolon,
            line: 2,
        },
        Token {
            value: TokenType::RightBrace,
            line: 3,
        },
        Token {
            value: TokenType::Eof,
            line: 3,
        },
    ]);
    assert_eq!(
        result,
        Ast {
            statements: vec![Stmt::If {
                condition: Expr::Literal(num("2", 2.0)),
                then_branch: Stmt::Block(vec![Stmt::Print(Expr::Literal(num("3", 3.0)))])
                .into(),
                else_branch: None
            }]
        }
    )
}

#[test]
fn it_parses_if_statements_else() {
    let result = parse(vec![
        token(TokenType::If),
        token(TokenType::LeftParen),
        token(TokenType::Number("2".to_string())),
        token(TokenType::RightParen),
        token(TokenType::LeftBrace),
        Token {
            value: TokenType::Print,
            line: 2,
        },
        Token {
            value: TokenType::Number("3".to_string()),
            line: 2,
        },
        Token {
            value: TokenType::Semicolon,
            line: 2,
        },
        Token {
            value: TokenType::RightBrace,
            line: 3,
        },
        Token {
            value: TokenType::Else,
            line: 3,
        },
        Token {
            value: TokenType::LeftBrace,
            line: 3,
        },
        Token {
            value: TokenType::Print,
            line: 4,
        },
        Token {
            value: TokenType::Number("-1".to_string()),
            line: 4,
        },
        Token {
            value: TokenType::Semicolon,
            line: 4,
        },
        Token {
            value: TokenType::RightBrace,
            line: 5,
        },
        Token {
            value: TokenType::Eof,
            line: 5,
        },
    ]);
    assert_eq!(
        result,
        Ast {
            statements: vec![Stmt::If {
                condition: Expr::Literal(num("2", 2.0)),
                then_branch: Stmt::Block(vec![Stmt::Print(Expr::Literal(num("3", 3.0)))])
                .into(),
                else_branch: Some(
                    Stmt::Block(vec![Stmt::Print(Expr::Literal(num("-1", -1.0)))]).into()
                )
            }]
        }
    )
}

#[test]
fn it_fails_on_bad_block_statements() {
    let errors = fail_parse(vec![
        token(TokenType::LeftBrace),
        token(TokenType::Print),
        token(TokenType::Number("2".to_string())),
        token(TokenType::Semicolon),
        token(TokenType::Print),
        token(TokenType::Number("3".to_string())),
        token(TokenType::Semicolon),
        token(TokenType::Eof),
    ]);

    assert_eq!(errors.len(), 1);
    assert_contains(&errors[0], "expected '}'");
}

#[test]
fn it_parses_while_statements() {
    let result = parse(vec![
        token(TokenType::While),
        token(TokenType::LeftParen),
        token(TokenType::Number("2".to_string())),
        token(TokenType::RightParen),
        token(TokenType::LeftBrace),
        Token {
            value: TokenType::Print,
            line: 2,
        },
        Token {
            value: TokenType::Number("3".to_string()),
            line: 2,
        },
        Token {
            value: TokenType::Semicolon,
            line: 2,
        },
        Token {
            value: TokenType::RightBrace,
            line: 3,
        },
        Token {
            value: TokenType::Eof,
            line: 3,
        },
    ]);
    assert_eq!(
        result,
        Ast {
            statements: vec![Stmt::While {
                condition: Expr::Literal(num("2", 2.0)),
                body: Stmt::Block(vec![Stmt::Print(Expr::Literal(num("3", 3.0)))])
                    .into(),
            }]
        }
    )
}

#[test]
fn it_fails_bad_while_statements() {
    let errors = fail_parse(vec![
        token(TokenType::While),
        token(TokenType::LeftParen),
        token(TokenType::Number("2".to_string())),
        token(TokenType::LeftBrace),
        Token {
            value: TokenType::Print,
            line: 2,
        },
        Token {
            value: TokenType::Number("3".to_string()),
            line: 2,
        },
        Token {
            value: TokenType::Semicolon,
            line: 2,
        },
        Token {
            value: TokenType::RightBrace,
            line: 3,
        },
        Token {
            value: TokenType::Eof,
            line: 3,
        },
    ]);

    // assert_eq!(errors.len(), 1);
    assert_contains(&errors[0], "expected ')'");
}

#[test]
fn it_parses_full_for_statements() {
    let result = parse(vec![
        token(TokenType::For),
        token(TokenType::LeftParen),
        token(TokenType::Var),
        token(TokenType::Identifier("i".to_string())),
        token(TokenType::Equal),
        token(TokenType::Number("0".to_string())),
        token(TokenType::Semicolon),
        token(TokenType::Identifier("i".to_string())),
        token(TokenType::LessThan),
        token(TokenType::Number("5".to_string())),
        token(TokenType::Semicolon),
        token(TokenType::Identifier("i".to_string())),
        token(TokenType::Equal),
        token(TokenType::Identifier("i".to_string())),
        token(TokenType::Plus),
        token(TokenType::Number("1".to_string())),
        token(TokenType::RightParen),
        token(TokenType::LeftBrace),
        token(TokenType::Print),
        token(TokenType::Identifier("i".to_string())),
        token(TokenType::Semicolon),
        token(TokenType::RightBrace),
        token(TokenType::Eof),
    ]);
    assert_eq!(
        result,
        Ast {
            // {
            //   var i = 0; // A
            //   while (i < 10) { // B
            //     print i; // D
            //     i = i + 1; // C
            //   }
            // }
            statements: vec![Stmt::Block(vec![
                Stmt::Var {
                    name: "i".to_string(),
                    val: Some(Expr::Literal(num("0", 0.0)))
                },
                Stmt::While {
                    condition: Expr::Binary {
                        left: Expr::Variable("i".to_string()).into(),
                        op: BinaryOp::Lt,
                        right: Expr::Literal(num("5", 5.0)).into()
                    },
                    body: Stmt::Block(vec![
                        Stmt::Block(vec![Stmt::Print(Expr::Variable("i".to_string()))]),
                        Stmt::Expression(Expr::Assign {
                            name: "i".to_string(),
                            value: Expr::Binary {
                                left: Expr::Variable("i".to_string()).into(),
                                op: BinaryOp::Add,
                                right: Expr::Literal(num("1", 1.0)).into()
                            }
                            .into()
                        })
                    ])
                    .into(),
                }
            ])]
        }
    )
}

#[test]
fn it_parses_for_statements_no_condition() {
    let result = parse(vec![
        token(TokenType::For),
        token(TokenType::LeftParen),
        token(TokenType::Var),
        token(TokenType::Identifier("i".to_string())),
        token(TokenType::Equal),
        token(TokenType::Number("0".to_string())),
        token(TokenType::Semicolon),
        token(TokenType::Semicolon),
        token(TokenType::Identifier("i".to_string())),
        token(TokenType::Equal),
        token(TokenType::Identifier("i".to_string())),
        token(TokenType::Plus),
        token(TokenType::Number("1".to_string())),
        token(TokenType::RightParen),
        token(TokenType::LeftBrace),
        token(TokenType::Print),
        token(TokenType::Identifier("i".to_string())),
        token(TokenType::Semicolon),
        token(TokenType::RightBrace),
        token(TokenType::Eof),
    ]);
    assert_eq!(
        result,
        Ast {
            statements: vec![Stmt::Block(vec![
                Stmt::Var {
                    name: "i".to_string(),
                    val: Some(Expr::Literal(num("0", 0.0)))
                },
                Stmt::While {
                    condition: Expr::Literal(Literal::True),
                    body: Stmt::Block(vec![
                        Stmt::Block(vec![Stmt::Print(Expr::Variable("i".to_string()))]),
                        Stmt::Expression(Expr::Assign {
                            name: "i".to_string(),
                            value: Expr::Binary {
                                left: Expr::Variable("i".to_string()).into(),
                                op: BinaryOp::Add,
                                right: Expr::Literal(num("1", 1.0)).into()
                            }
                            .into()
                        })
                    ])
                    .into(),
                }
            ])]
        }
    )
}

#[test]
fn it_parses_for_statements_no_increment() {
    let result = parse(vec![
        token(TokenType::For),
        token(TokenType::LeftParen),
        token(TokenType::Var),
        token(TokenType::Identifier("i".to_string())),
        token(TokenType::Equal),
        token(TokenType::Number("0".to_string())),
        token(TokenType::Semicolon),
        token(TokenType::Identifier("i".to_string())),
        token(TokenType::LessThan),
        token(TokenType::Number("5".to_string())),
        token(TokenType::Semicolon),
        token(TokenType::RightParen),
        token(TokenType::LeftBrace),
        token(TokenType::Print),
        token(TokenType::Identifier("i".to_string())),
        token(TokenType::Semicolon),
        token(TokenType::RightBrace),
        token(TokenType::Eof),
    ]);
    assert_eq!(
        result,
        Ast {
            statements: vec![Stmt::Block(vec![
                Stmt::Var {
                    name: "i".to_string(),
                    val: Some(Expr::Literal(num("0", 0.0)))
                },
                Stmt::While {
                    condition: Expr::Binary {
                        left: Expr::Variable("i".to_string()).into(),
                        op: BinaryOp::Lt,
                        right: Expr::Literal(num("5", 5.0)).into()
                    },
                    body: Stmt::Block(vec![Stmt::Print(Expr::Variable("i".to_string()))])
                        .into(),
                }
            ])]
        }
    )
}

#[test]
fn it_parses_for_statement_no_initializer() {
    let result = parse(vec![
        token(TokenType::For),
        token(TokenType::LeftParen),
        token(TokenType::Semicolon),
        token(TokenType::Identifier("i".to_string())),
        token(TokenType::LessThan),
        token(TokenType::Number("5".to_string())),
        token(TokenType::Semicolon),
        token(TokenType::Identifier("i".to_string())),
        token(TokenType::Equal),
        token(TokenType::Identifier("i".to_string())),
        token(TokenType::Plus),
        token(TokenType::Number("1".to_string())),
        token(TokenType::RightParen),
        token(TokenType::LeftBrace),
        token(TokenType::Print),
        token(TokenType::Identifier("i".to_string())),
        token(TokenType::Semicolon),
        token(TokenType::RightBrace),
        token(TokenType::Eof),
    ]);
    assert_eq!(
        result,
        Ast {
            // {
            //   var i = 0; // A
            //   while (i < 10) { // B
            //     print i; // D
            //     i = i + 1; // C
            //   }
            // }
            statements: vec![Stmt::While {
                condition: Expr::Binary {
                    left: Expr::Variable("i".to_string()).into(),
                    op: BinaryOp::Lt,
                    right: Expr::Literal(num("5", 5.0)).into()
                },
                body: Stmt::Block(vec![
                    Stmt::Block(vec![Stmt::Print(Expr::Variable("i".to_string()))]),
                    Stmt::Expression(Expr::Assign {
                        name: "i".to_string(),
                        value: Expr::Binary {
                            left: Expr::Variable("i".to_string()).into(),
                            op: BinaryOp::Add,
                            right: Expr::Literal(num("1", 1.0)).into()
                        }
                        .into()
                    })
                ])
                .into(),
            }]
        }
    )
}

#[test]
fn it_parses_minimal_for_statements() {
    let result = parse(vec![
        token(TokenType::For),
        token(TokenType::LeftParen),
        token(TokenType::Semicolon),
        token(TokenType::Semicolon),
        token(TokenType::RightParen),
        token(TokenType::LeftBrace),
        token(TokenType::Print),
        token(TokenType::Identifier("i".to_string())),
        token(TokenType::Semicolon),
        token(TokenType::RightBrace),
        token(TokenType::Eof),
    ]);
    assert_eq!(
        result,
        Ast {
            // {
            //   var i = 0; // A
            //   while (i < 10) { // B
            //     print i; // D
            //     i = i + 1; // C
            //   }
            // }
            statements: vec![Stmt::While {
                condition: Expr::Literal(Literal::True),
                body: Stmt::Block(vec![Stmt::Print(Expr::Variable("i".to_string()))]).into(),
            }]
        }
    )
}

#[test]
fn it_parses_var_declarations_with_values() {
    let result = parse(vec![
        token(TokenType::Var),
        token(TokenType::Identifier("name".to_string())),
        token(TokenType::Equal),
        token(TokenType::String("david".to_string())),
        token(TokenType::Semicolon),
        token(TokenType::Eof),
    ]);
    assert_eq!(
        result,
        Ast {
            statements: vec![Stmt::Var {
                name: "name".to_string(),
                val: Some(Expr::Literal(Literal::String("david".to_string())))
            }]
        }
    )
}

#[test]
fn it_parses_var_declarations_with_complex_values() {
    let result = parse(vec![
        token(TokenType::Var),
        token(TokenType::Identifier("name".to_string())),
        token(TokenType::Equal),
        token(TokenType::LeftParen),
        token(TokenType::Number("1".to_string())),
        token(TokenType::Plus),
        token(TokenType::Number("2".to_string())),
        token(TokenType::RightParen),
        token(TokenType::Star),
        token(TokenType::Number("3".to_string())),
        token(TokenType::Semicolon),
        token(TokenType::Eof),
    ]);
    assert_eq!(
        result,
        Ast {
            statements: vec![Stmt::Var {
                name: "name".to_string(),
                val: Some(Expr::Binary {
                    left: Expr::Grouping(
                        Expr::Binary {
                            left: Expr::Literal(num("1", 1.0)).into(),
                            op: BinaryOp::Add,
                            right: Expr::Literal(num("2", 2.0)).into()
                        }
                        .into()
                    )
                    .into(),
                    op: BinaryOp::Mul,
                    right: Expr::Literal(num("3", 3.0)).into()
                })
            }]
        }
    )
}

#[test]
fn it_parses_empty_var_declarations() {
    let result = parse(vec![
        token(TokenType::Var),
        token(TokenType::Identifier("name".to_string())),
        token(TokenType::Semicolon),
        token(TokenType::Eof),
    ]);
    assert_eq!(
        result,
        Ast {
            statements: vec![Stmt::Var {
                name: "name".to_string(),
                val: None
            }]
        }
    )
}

#[test]
fn it_parses_var_access() {
    let result = parse(vec![
        token(TokenType::Identifier("name".to_string())),
        token(TokenType::Semicolon),
        token(TokenType::Eof),
    ]);
    assert_eq!(
        result,
        Ast {
            statements: vec![Stmt::Expression(Expr::Variable("name".to_string()))]
        }
    )
}

#[test]
fn it_parses_nested_var_access() {
    let result = parse(vec![
        token(TokenType::Minus),
        token(TokenType::Identifier("name".to_string())),
        token(TokenType::Semicolon),
        token(TokenType::Eof),
    ]);
    assert_eq!(
        result,
        Ast {
            statements: vec![Stmt::Expression(Expr::Unary {
                op: UnaryOp::Neg,
                expr: Expr::Variable("name".to_string()).into()
            })]
        }
    )
}

#[test]
fn it_parses_logical_or() {
    let result = parse(vec![
        token(TokenType::String("name".to_string())),
        token(TokenType::Or),
        token(TokenType::String("age".to_string())),
        token(TokenType::Semicolon),
        token(TokenType::Eof),
    ]);
    assert_eq!(
        result,
        Ast {
            statements: vec![Stmt::Expression(Expr::Logical {
                left: Expr::Literal(Literal::String("name".to_string())).into(),
                op: LogicalOp::Or,
                right: Expr::Literal(Literal::String("age".to_string())).into()
            })]
        }
    )
}

#[test]
fn it_parses_logical_and() {
    let result = parse(vec![
        token(TokenType::Number("123".to_string())),
        token(TokenType::And),
        token(TokenType::Number("456".to_string())),
        token(TokenType::Semicolon),
        token(TokenType::Eof),
    ]);
    assert_eq!(
        result,
        Ast {
            statements: vec![Stmt::Expression(Expr::Logical {
                left: Expr::Literal(num("123", 123.0)).into(),
                op: LogicalOp::And,
                right: Expr::Literal(num("456", 456.0)).into()
            })]
        }
    )
}

#[test]
fn it_parses_nested_logical_operators() {
    let result = parse(vec![
        token(TokenType::Number("123".to_string())),
        token(TokenType::And),
        token(TokenType::Number("456".to_string())),
        token(TokenType::And),
        token(TokenType::Number("789".to_string())),
        token(TokenType::Or),
        token(TokenType::Number("890".to_string())),
        token(TokenType::Semicolon),
        token(TokenType::Eof),
    ]);
    assert_eq!(
        result,
        Ast {
            statements: vec![Stmt::Expression(Expr::Logical {
                left: Expr::Logical {
                    left: Expr::Logical {
                        left: Expr::Literal(num("123", 123.0)).into(),
                        op: LogicalOp::And,
                        right: Expr::Literal(num("456", 456.0)).into()
                    }
                    .into(),
                    op: LogicalOp::And,
                    right: Expr::Literal(num("789", 789.0)).into()
                }
                .into(),
                op: LogicalOp::Or,
                right: Expr::Literal(num("890", 890.0)).into()
            })]
        }
    )
}

#[test]
fn it_fails_for_broken_grouping() {
    let errors = fail_parse(vec![
        token(TokenType::LeftParen),
        token(TokenType::True),
        token(TokenType::Semicolon),
        token(TokenType::Eof),
    ]);
    assert_eq!(errors.len(), 1);
    assert_contains(&errors[0], "missing ')'");
}

#[test]
fn it_fails_for_missing_semi_in_print() {
    let errors = fail_parse(vec![
        token(TokenType::Print),
        token(TokenType::True),
        token(TokenType::Eof),
    ]);

    assert_eq!(errors.len(), 1);
    assert_contains(&errors[0], "expected ';'");
}

#[test]
fn it_fails_for_invalid_assignment() {
    let errors = fail_parse(vec![
        token(TokenType::Number("3".to_string())),
        token(TokenType::Equal),
        token(TokenType::Number("5".to_string())),
        token(TokenType::Semicolon),
        token(TokenType::Eof),
    ]);

    assert_eq!(errors.len(), 1);
    assert_contains(&errors[0], "invalid assignment target");
}

#[test]
fn it_fails_for_invalid_function_call() {
    let errors = fail_parse(vec![
        token(TokenType::Identifier("add".to_string())),
        token(TokenType::LeftParen),
        token(TokenType::Number("1".to_string())),
        token(TokenType::Number("2".to_string())),
        token(TokenType::RightParen),
        token(TokenType::Semicolon),
        token(TokenType::Eof),
    ]);

    assert_eq!(errors.len(), 1);
    assert_contains(&errors[0], "expected ')'");
}

#[test]
fn it_fails_for_invalid_function_declaration_no_rparen() {
    let errors = fail_parse(vec![
        token(TokenType::Fun),
        token(TokenType::Identifier("sum".to_string())),
        token(TokenType::LeftParen),
        token(TokenType::Identifier("a".to_string())),
        token(TokenType::Comma),
        token(TokenType::Identifier("b".to_string())),
        token(TokenType::LeftBrace),
        token(TokenType::Print),
        token(TokenType::Identifier("a".to_string())),
        token(TokenType::Plus),
        token(TokenType::Identifier("b".to_string())),
        token(TokenType::Semicolon),
        token(TokenType::RightBrace),
        token(TokenType::Eof),
    ]);

    assert_eq!(errors.len(), 2);
    assert_contains(&errors[0], "expected ')'");
}

#[test]
fn it_fails_for_invalid_function_declaration_no_lbrace() {
    let errors = fail_parse(vec![
        token(TokenType::Fun),
        token(TokenType::Identifier("sum".to_string())),
        token(TokenType::LeftParen),
        token(TokenType::Identifier("a".to_string())),
        token(TokenType::Comma),
        token(TokenType::Identifier("b".to_string())),
        token(TokenType::RightParen),
        token(TokenType::Print),
        token(TokenType::Identifier("a".to_string())),
        token(TokenType::Plus),
        token(TokenType::Identifier("b".to_string())),
        token(TokenType::Semicolon),
        token(TokenType::RightBrace),
        token(TokenType::Eof),
    ]);

    assert_eq!(errors.len(), 2);
    assert_contains(&errors[0], "expected '{'");
}

#[test]
fn it_doesnt_yet_handle_dangling_commas() {
    let errors = fail_parse(vec![
        token(TokenType::Identifier("f".to_string())),
        token(TokenType::LeftParen),
        token(TokenType::Identifier("g".to_string())),
        token(TokenType::LeftParen),
        token(TokenType::RightParen),
        // a trailing comma, es5 style, is not accepted
        token(TokenType::Comma),
        token(TokenType::RightParen),
        token(TokenType::Semicolon),
        token(TokenType::Eof),
    ]);
    assert_eq!(errors.len(), 1);
    assert_contains(&errors[0], "expected expression");
}

#[test]
fn it_parses_a_product_inside_a_sum() {
    let result = parse(vec![
        token(TokenType::Number("1".to_string())),
        token(TokenType::Plus),
        token(TokenType::Number("2".to_string())),
        token(TokenType::Star),
        token(TokenType::Number("3".to_string())),
        token(TokenType::Semicolon),
        token(TokenType::Eof),
    ]);
    assert_eq!(
        result,
        Ast {
            statements: vec![Stmt::Expression(Expr::Binary {
                left: Expr::Literal(num("1", 1.0)).into(),
                op: BinaryOp::Add,
                right: Expr::Binary {
                    left: Expr::Literal(num("2", 2.0)).into(),
                    op: BinaryOp::Mul,
                    right: Expr::Literal(num("3", 3.0)).into(),
                }
                .into(),
            })]
        }
    )
}
