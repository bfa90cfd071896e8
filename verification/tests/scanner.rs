use lox_rs::reader::Source;
use lox_rs::scanner::{ScanError, Scanner, Token, TokenType, Tokens};

fn scan(text: &str) -> Tokens {
    Scanner::new(&Source {
        text: text.to_string(),
    })
    .scan_tokens()
    .expect("this method should return Ok()")
}

fn fail_scan(text: &str) -> Vec<ScanError> {
    match Scanner::new(&Source {
        text: text.to_string(),
    })
    .scan_tokens()
    {
        Ok(_) => panic!("errors method expects errors"),
        Err(errors) => errors,
    }
}

/// Case-insensitive match on the text of an error.
fn assert_contains(err: &ScanError, msg: &str) {
    let input = err.message().to_lowercase();
    let substr = &msg.to_lowercase();
    assert!(
        input.contains(substr),
        "expected \"{input}\" to contain \"{substr}\""
    )
}

#[test]
fn scanner_it_works() {
    assert_eq!(
        scan(";(){}*;;+*-.,"),
        Tokens {
            tokens: vec![
                Token {
                    value: TokenType::Semicolon,
                    line: 1
                },
                Token {
                    value: TokenType::LeftParen,
                    line: 1
                },
                Token {
                    value: TokenType::RightParen,
                    line: 1
                },
                Token {
                    value: TokenType::LeftBrace,
                    line: 1
                },
                Token {
                    value: TokenType::RightBrace,
                    line: 1
                },
                Token {
                    value: TokenType::Star,
                    line: 1
                },
                Token {
                    value: TokenType::Semicolon,
                    line: 1
                },
                Token {
                    value: TokenType::Semicolon,
                    line: 1
                },
                Token {
                    value: TokenType::Plus,
                    line: 1
                },
                Token {
                    value: TokenType::Star,
                    line: 1
                },
                Token {
                    value: TokenType::Minus,
                    line: 1
                },
                Token {
                    value: TokenType::Dot,
                    line: 1
                },
                Token {
                    value: TokenType::Comma,
                    line: 1
                },
                Token {
                    value: TokenType::Eof,
                    line: 1
                },
            ]
        }
    );
}

#[test]
fn multi_character_tokens() {
    assert_eq!(
        scan("!=!;== =<<>=> <=!!!"),
        Tokens {
            tokens: vec![
                Token {
                    value: TokenType::BangEqual,
                    line: 1
                },
                Token {
                    value: TokenType::Bang,
                    line: 1
                },
                Token {
                    value: TokenType::Semicolon,
                    line: 1
                },
                Token {
                    value: TokenType::EqualEqual,
                    line: 1
                },
                Token {
                    value: TokenType::Equal,
                    line: 1
                },
                Token {
                    value: TokenType::LessThan,
                    line: 1
                },
                Token {
                    value: TokenType::LessThan,
                    line: 1
                },
                Token {
                    value: TokenType::GreaterThanEqual,
                    line: 1
                },
                Token {
                    value: TokenType::GreaterThan,
                    line: 1
                },
                Token {
                    value: TokenType::LessThanEqual,
                    line: 1
                },
                Token {
                    value: TokenType::Bang,
                    line: 1
                },
                Token {
                    value: TokenType::Bang,
                    line: 1
                },
                Token {
                    value: TokenType::Bang,
                    line: 1
                },
                Token {
                    value: TokenType::Eof,
                    line: 1
                },
            ]
        }
    );
}

#[test]
fn comments_basics() {
    assert_eq!(
        scan("!/!// ignored\n/!"),
        Tokens {
            tokens: vec![
                Token {
                    value: TokenType::Bang,
                    line: 1
                },
                Token {
                    value: TokenType::Slash,
                    line: 1
                },
                Token {
                    value: TokenType::Bang,
                    line: 1
                },
                Token {
                    value: TokenType::Slash,
                    line: 2
                },
                Token {
                    value: TokenType::Bang,
                    line: 2
                },
                Token {
                    value: TokenType::Eof,
                    line: 2
                },
            ]
        }
    );
}

#[test]
fn comment_no_trailing_newline() {
    assert_eq!(
        scan("!/!// ignored"),
        Tokens {
            tokens: vec![
                Token {
                    value: TokenType::Bang,
                    line: 1
                },
                Token {
                    value: TokenType::Slash,
                    line: 1
                },
                Token {
                    value: TokenType::Bang,
                    line: 1
                },
                Token {
                    value: TokenType::Eof,
                    line: 1
                },
            ]
        }
    );
}

#[test]
fn ignored_whitespace() {
    assert_eq!(
        scan("!  =  +  - \n! . * \t\t ; \n /"),
        Tokens {
            tokens: vec![
                Token {
                    value: TokenType::Bang,
                    line: 1
                },
                Token {
                    value: TokenType::Equal,
                    line: 1
                },
                Token {
                    value: TokenType::Plus,
                    line: 1
                },
                Token {
                    value: TokenType::Minus,
                    line: 1
                },
                Token {
                    value: TokenType::Bang,
                    line: 2
                },
                Token {
                    value: TokenType::Dot,
                    line: 2
                },
                Token {
                    value: TokenType::Star,
                    line: 2
                },
                Token {
                    value: TokenType::Semicolon,
                    line: 2
                },
                Token {
                    value: TokenType::Slash,
                    line: 3
                },
                Token {
                    value: TokenType::Eof,
                    line: 3
                },
            ]
        }
    );
}

#[test]
fn basic_string() {
    assert_eq!(
        scan("!!\"neat\";"),
        Tokens {
            tokens: vec![
                Token {
                    value: TokenType::Bang,
                    line: 1
                },
                Token {
                    value: TokenType::Bang,
                    line: 1
                },
                Token {
                    value: TokenType::String("neat".to_string()),
                    line: 1
                },
                Token {
                    value: TokenType::Semicolon,
                    line: 1
                },
                Token {
                    value: TokenType::Eof,
                    line: 1
                },
            ]
        }
    );
}

#[test]
fn unicode_string() {
    assert_eq!(
        scan("!!\"jalapeño\";"),
        Tokens {
            tokens: vec![
                Token {
                    value: TokenType::Bang,
                    line: 1
                },
                Token {
                    value: TokenType::Bang,
                    line: 1
                },
                Token {
                    value: TokenType::String("jalapeño".to_string()),
                    line: 1
                },
                Token {
                    value: TokenType::Semicolon,
                    line: 1
                },
                Token {
                    value: TokenType::Eof,
                    line: 1
                },
            ]
        }
    );
}

#[test]
fn multiline_string() {
    assert_eq!(
        scan("!\"ne\na\nt\";\n;"),
        Tokens {
            tokens: vec![
                Token {
                    value: TokenType::Bang,
                    line: 1
                },
                Token {
                    value: TokenType::String("ne\na\nt".to_string()),
                    // strings are attributed to the line on which they end?
                    line: 3
                },
                Token {
                    value: TokenType::Semicolon,
                    line: 3
                },
                Token {
                    value: TokenType::Semicolon,
                    line: 4
                },
                Token {
                    value: TokenType::Eof,
                    line: 4
                },
            ]
        }
    );
}

#[test]
fn multiline_int_not_a_thing() {
    assert_eq!(
        scan("123\n456"),
        Tokens {
            tokens: vec![
                Token {
                    value: TokenType::Number("123".to_string()),
                    line: 1
                },
                Token {
                    value: TokenType::Number("456".to_string()),
                    line: 2
                },
                Token {
                    value: TokenType::Eof,
                    line: 2
                },
            ]
        }
    );
}

#[test]
fn integers() {
    assert_eq!(
        scan("!123;"),
        Tokens {
            tokens: vec![
                Token {
                    value: TokenType::Bang,
                    line: 1
                },
                Token {
                    value: TokenType::Number("123".to_string()),
                    line: 1
                },
                Token {
                    value: TokenType::Semicolon,
                    line: 1
                },
                Token {
                    value: TokenType::Eof,
                    line: 1
                },
            ]
        }
    );
}
#[test]
fn floats() {
    assert_eq!(
        scan("!123.456;"),
        Tokens {
            tokens: vec![
                Token {
                    value: TokenType::Bang,
                    line: 1
                },
                Token {
                    value: TokenType::Number("123.456".to_string()),
                    line: 1
                },
                Token {
                    value: TokenType::Semicolon,
                    line: 1
                },
                Token {
                    value: TokenType::Eof,
                    line: 1
                },
            ]
        }
    );
}

#[test]
fn int_at_end_of_input() {
    assert_eq!(
        scan("123"),
        Tokens {
            tokens: vec![
                Token {
                    value: TokenType::Number("123".to_string()),
                    line: 1
                },
                Token {
                    value: TokenType::Eof,
                    line: 1
                },
            ]
        }
    );
}

#[test]
fn float_at_end_of_input() {
    assert_eq!(
        scan("123.456"),
        Tokens {
            tokens: vec![
                Token {
                    value: TokenType::Number("123.456".to_string()),
                    line: 1
                },
                Token {
                    value: TokenType::Eof,
                    line: 1
                },
            ]
        }
    );
}

#[test]
fn num_leading_period() {
    // this is a weird one- I think i'm diverging from the book
    assert_eq!(
        scan(".456"),
        Tokens {
            tokens: vec![
                Token {
                    value: TokenType::Dot,
                    line: 1
                },
                Token {
                    value: TokenType::Number("456".to_string()),
                    line: 1
                },
                Token {
                    value: TokenType::Eof,
                    line: 1
                },
            ]
        }
    );
}

#[test]
fn keywords() {
    assert_eq!(
        scan("123.456"),
        Tokens {
            tokens: vec![
                Token {
                    value: TokenType::Number("123.456".to_string()),
                    line: 1
                },
                Token {
                    value: TokenType::Eof,
                    line: 1
                },
            ]
        }
    );
}

#[test]
fn num_trailing_period() {
    let errors = fail_scan("123.");
    assert_eq!(errors.len(), 1);
    assert_contains(&errors[0], "float with no decimals");
}

#[test]
fn unterminated_string() {
    let errors = fail_scan("\"neat");
    assert_eq!(errors.len(), 1);
    assert_contains(&errors[0], "unterminated string");
}

#[test]
fn unrecognized_character() {
    let errors = fail_scan("!+@");
    assert_eq!(errors.len(), 1);
    assert_contains(&errors[0], "unexpected character");
    assert_contains(&errors[0], "@");
    assert_contains(&errors[0], "[line: 1]");
}

#[test]
fn multiple_errors() {
    let errors = fail_scan("!+@\n12.");
    assert_eq!(errors.len(), 2);

    assert_contains(&errors[0], "@");
    assert_contains(&errors[0], "[line: 1]");
    assert_contains(&errors[1], "decimals");
    assert_contains(&errors[1], "[line: 2]");
}

#[test]
fn unterminated_takes_priority() {
    let errors = fail_scan("\"a!+@\n12.");
    assert_eq!(errors.len(), 1);

    assert_contains(&errors[0], "unterminated string");
    assert_contains(&errors[0], "[line: 1]");
}
