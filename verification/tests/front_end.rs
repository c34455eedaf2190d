use mouse_lang::errors::{Error, ErrorTypes, SyntaxError};
use mouse_lang::lexer::{
    autofix, fix_line, fix_lines, tokenize, tokenize_chars, Comparison, Operator, Token, TokenType,
};
use mouse_lang::parser::{parse, parse_block, BinaryOp, Expr, Program, Stmt};

fn kinds(code: &str) -> Vec<TokenType> {
    tokenize(code.to_string())
        .into_iter()
        .map(|token| token.token)
        .collect()
}

fn ident(name: &str) -> TokenType {
    TokenType::Identifier(name.to_string())
}

#[test]
fn a_let_statement_is_five_tokens() {
    assert_eq!(
        tokenize("let x = 42;".to_string()),
        vec![
            Token::new(TokenType::KWLet, 0, 1),
            Token::new(ident("x"), 0, 3),
            Token::new(TokenType::Assign, 0, 5),
            Token::new(TokenType::Number(42), 0, 7),
            Token::new(TokenType::Semicolon, 0, 8),
        ]
    );
}

#[test]
fn keywords_have_other_spellings() {
    assert_eq!(kinds("let var const"), vec![TokenType::KWLet, TokenType::KWLet, TokenType::KWLet]);
    assert_eq!(kinds("fn function def"), vec![TokenType::KWFn, TokenType::KWFn, TokenType::KWFn]);
    assert_eq!(
        kinds("return if while lets _x x1"),
        vec![
            TokenType::KWReturn,
            TokenType::KWIf,
            TokenType::KWWhile,
            ident("lets"),
            ident("_x"),
            ident("x1"),
        ]
    );
}

#[test]
fn operators_and_comparisons() {
    assert_eq!(
        kinds("+ - * / = == != < <= > >= ( ) { } , ; ."),
        vec![
            TokenType::Operator(Operator::Add),
            TokenType::Operator(Operator::Subtract),
            TokenType::Operator(Operator::Multiply),
            TokenType::Operator(Operator::Divide),
            TokenType::Assign,
            TokenType::Comparison(Comparison::Equal),
            TokenType::Comparison(Comparison::NotEqual),
            TokenType::Comparison(Comparison::LessThan),
            TokenType::Comparison(Comparison::LessThanOrEqual),
            TokenType::Comparison(Comparison::GreaterThan),
            TokenType::Comparison(Comparison::GreaterThanOrEqual),
            TokenType::BracketOpen,
            TokenType::BracketClose,
            TokenType::BraceOpen,
            TokenType::BraceClose,
            TokenType::Comma,
            TokenType::Semicolon,
            TokenType::Dot,
        ]
    );
    assert_eq!(kinds("! @ ~"), vec![]);
}

#[test]
fn strings_run_to_the_next_quote() {
    assert_eq!(
        kinds(r#""Hello, World!" "" "open"#),
        vec![
            TokenType::String("Hello, World!".to_string()),
            TokenType::String("".to_string()),
            TokenType::String("open".to_string()),
        ]
    );
}

#[test]
fn numbers_that_do_not_fit_are_dropped() {
    assert_eq!(
        kinds("0 007 2147483647 2147483648 99999999999999999999999 5"),
        vec![
            TokenType::Number(0),
            TokenType::Number(7),
            TokenType::Number(2147483647),
            TokenType::Number(5),
        ]
    );
}

#[test]
fn comments_run_to_the_end_of_the_line() {
    assert_eq!(
        tokenize("a // note ; b\nc".to_string()),
        vec![Token::new(ident("a"), 0, 1), Token::new(ident("c"), 1, 1)]
    );
    assert_eq!(
        tokenize("a # note\nc".to_string()),
        vec![Token::new(ident("a"), 0, 1), Token::new(ident("c"), 1, 1)]
    );
    assert_eq!(
        tokenize("#\nstill comment\nc".to_string()),
        vec![Token::new(ident("c"), 1, 1)]
    );
    assert_eq!(kinds("# x"), vec![]);
    assert_eq!(kinds("#"), vec![]);
    assert_eq!(kinds("//"), vec![]);
}

#[test]
fn a_dotted_word_gives_object_names() {
    assert_eq!(
        tokenize("std.print(x)".to_string()),
        vec![
            Token::new(TokenType::ObjectName("std".to_string()), 0, 1),
            Token::new(ident("print"), 0, 1),
            Token::new(TokenType::BracketOpen, 0, 2),
            Token::new(ident("x"), 0, 3),
            Token::new(TokenType::BracketClose, 0, 4),
        ]
    );
    assert_eq!(
        kinds("a.b.let"),
        vec![
            TokenType::ObjectName("a".to_string()),
            TokenType::ObjectName("b".to_string()),
            TokenType::KWLet,
        ]
    );
    assert_eq!(kinds("a."), vec![TokenType::ObjectName("a".to_string()), ident("")]);
}

#[test]
fn columns_count_steps_and_lines_count_feeds() {
    assert_eq!(
        tokenize("ab  cd\n\n  e\tf".to_string()),
        vec![
            Token::new(ident("ab"), 0, 1),
            Token::new(ident("cd"), 0, 4),
            Token::new(ident("e"), 2, 3),
            Token::new(ident("f"), 2, 5),
        ]
    );
    let chars: Vec<char> = "x==1".chars().collect();
    assert_eq!(
        tokenize_chars(&chars),
        vec![
            Token::new(ident("x"), 0, 1),
            Token::new(TokenType::Comparison(Comparison::Equal), 0, 2),
            Token::new(TokenType::Number(1), 0, 3),
        ]
    );
}

#[test]
fn token_text_is_what_is_written() {
    assert_eq!(TokenType::KWLet.into_string(), "let");
    assert_eq!(TokenType::KWFn.into_string(), "fn");
    assert_eq!(TokenType::KWReturn.into_string(), "return");
    assert_eq!(TokenType::KWIf.into_string(), "if");
    assert_eq!(TokenType::KWWhile.into_string(), "while");
    assert_eq!(ident("abc").into_string(), "abc");
    assert_eq!(TokenType::Number(-12).into_string(), "-12");
    assert_eq!(TokenType::Number(i32::MIN).into_string(), "-2147483648");
    assert_eq!(TokenType::String("s".to_string()).into_string(), "s");
    assert_eq!(TokenType::Operator(Operator::Divide).into_string(), "/");
    assert_eq!(TokenType::Comparison(Comparison::LessThanOrEqual).into_string(), "<=");
    assert_eq!(TokenType::Assign.into_string(), "=");
    assert_eq!(TokenType::BracketOpen.into_string(), "(");
    assert_eq!(TokenType::BracketClose.into_string(), ")");
    assert_eq!(TokenType::BraceOpen.into_string(), "{");
    assert_eq!(TokenType::BraceClose.into_string(), "}");
    assert_eq!(TokenType::Comma.into_string(), ",");
    assert_eq!(TokenType::Semicolon.into_string(), ";");
    assert_eq!(TokenType::Dot.into_string(), ".");
    assert_eq!(TokenType::ObjectName("o".to_string()).into_string(), "o");
    assert_eq!(TokenType::Comment("c".to_string()).into_string(), "c");
    assert_eq!(Operator::Add.into_string(), "+");
    assert_eq!(Comparison::NotEqual.into_string(), "!=");
}

#[test]
fn autofix_adds_the_missing_semicolons() {
    assert_eq!(
        autofix("let x = 1\nfn f(a) {\n  return a  \n}\nf(\n1,\n2)\nlet y = 2;\n\n   \n"),
        "let x = 1;\nfn f(a) {\n  return a;\n}\nf(\n1,\n2);\nlet y = 2;\n\n   \n"
    );
    assert_eq!(autofix(""), "");
    assert_eq!(autofix("a"), "a;\n");
    assert_eq!(autofix("a\r\nb"), "a;\nb;\n");
    assert_eq!(fix_line("x  ", "x"), "x;\n");
    assert_eq!(fix_line("x;  ", "x;"), "x;  \n");
    assert_eq!(fix_line("  ", ""), "  \n");
    assert_eq!(fix_line("f(", "f("), "f(\n");
    assert_eq!(
        fix_lines(&vec!["a".to_string(), "b {".to_string(), "c\t".to_string()]),
        "a;\nb {\nc;\n"
    );
}

fn number(n: i32) -> Box<Expr> {
    Box::new(Expr::Number(n))
}

fn parse_code(code: &str) -> Result<Program, Error> {
    parse(&tokenize(code.to_string()))
}

#[test]
fn multiplication_binds_tighter_than_addition() {
    let program = parse_code("let r = 2 + 3 * 4 - 1;").unwrap();
    assert_eq!(
        program.statements,
        vec![Stmt::Let {
            name: "r".to_string(),
            value: Expr::Binary {
                left: Box::new(Expr::Binary {
                    left: number(2),
                    op: BinaryOp::Add,
                    right: Box::new(Expr::Binary {
                        left: number(3),
                        op: BinaryOp::Multiply,
                        right: number(4),
                    }),
                }),
                op: BinaryOp::Subtract,
                right: number(1),
            },
        }]
    );
}

#[test]
fn statements_of_every_kind_are_parsed() {
    let program =
        parse_code("fn f(a, b) { if a < b { return a; } x = g(a, 1 / b); } f(1, \"s\");").unwrap();
    assert_eq!(
        program.statements,
        vec![
            Stmt::Function {
                name: "f".to_string(),
                params: vec!["a".to_string(), "b".to_string()],
                body: vec![
                    Stmt::If {
                        condition: Expr::Binary {
                            left: Box::new(Expr::Identifier("a".to_string())),
                            op: BinaryOp::LessThan,
                            right: Box::new(Expr::Identifier("b".to_string())),
                        },
                        then_branch: vec![Stmt::Return(Expr::Identifier("a".to_string()))],
                        else_branch: None,
                    },
                    Stmt::Assign {
                        name: "x".to_string(),
                        value: Expr::FunctionCall {
                            name: "g".to_string(),
                            args: vec![
                                Expr::Identifier("a".to_string()),
                                Expr::Binary {
                                    left: number(1),
                                    op: BinaryOp::Divide,
                                    right: Box::new(Expr::Identifier("b".to_string())),
                                },
                            ],
                        },
                    },
                ],
            },
            Stmt::Expression(Expr::FunctionCall {
                name: "f".to_string(),
                args: vec![Expr::Number(1), Expr::String("s".to_string())],
            }),
        ]
    );
    assert_eq!(program.clone(), program);
}

fn unexpected(code: &str, at: usize, expected: &str) -> Result<Program, Error> {
    Err(Error::syntax_error(&tokenize(code.to_string())[at], expected))
}

#[test]
fn parse_errors_name_the_token_and_what_was_expected() {
    assert_eq!(
        parse_code("let = 1;"),
        Err(Error::syntax_error(&Token::new(TokenType::Assign, 0, 3), "identifier"))
    );
    for (code, at, expected) in [
        ("let = 1;", 1, "identifier"),
        ("let", 0, "identifier"),
        ("let x", 0, "="),
        ("let x 1", 2, "="),
        ("let x = ;", 3, "number, string, or identifier"),
        ("x + 1;", 1, "assignment operator"),
        ("fn 1() {}", 1, "function name"),
        ("fn f(1) {}", 3, "string literal or closing bracket"),
        ("if 1 return 2;", 2, "{"),
        ("let r = f(1, ;", 7, "number, string, or identifier"),
        ("let r = 1 * ;", 5, "number, string, or identifier"),
        ("let r = 1 + ;", 5, "number, string, or identifier"),
        ("return }", 1, "number, string, or identifier"),
    ] {
        assert_eq!(parse_code(code), unexpected(code, at, expected), "for {:?}", code);
    }
    for code in ["let x =", "x", "f(1", "fn f(a", "if 1", "fn f", "x = ", "let r = 1 +"] {
        assert_eq!(parse_code(code), Err(Error::unexpected_eof()), "for {:?}", code);
    }
    let unimplemented = parse_code("let a = 1; while 1 { }").unwrap_err();
    let token = tokenize("let a = 1; while 1 { }".to_string())[5].clone();
    assert_eq!(token.token, TokenType::KWWhile);
    assert_eq!(unimplemented, Error::unimplemented_token(&token));
    assert_eq!((unimplemented.line, unimplemented.column), (token.line, token.column));
    match unimplemented.error_type {
        ErrorTypes::LexicalError(message) => {
            assert!(message.starts_with("Unimplemented token: "));
            assert!(message.contains("KWWhile"));
        }
        other => panic!("not a lexical error: {:?}", other),
    }
}

#[test]
fn a_block_ends_at_its_closing_brace() {
    let tokens = tokenize("let a = 1; } let b = 2;".to_string());
    let (body, consumed) = parse_block(&tokens, 0).unwrap();
    assert_eq!(body.len(), 1);
    assert_eq!(consumed, 6);
    let (rest, consumed) = parse_block(&tokens, 6).unwrap();
    assert_eq!(rest.len(), 1);
    assert_eq!(consumed, 5);
    let (none, consumed) = parse_block(&tokens, tokens.len() + 1).unwrap();
    assert!(none.is_empty());
    assert_eq!(consumed, 0);
    assert_eq!(parse(&[]), Ok(Program { statements: vec![] }));
}

#[test]
fn a_function_without_a_body_is_a_function_with_an_empty_body() {
    let program = parse_code("fn f()").unwrap();
    assert_eq!(
        program.statements,
        vec![Stmt::Function {
            name: "f".to_string(),
            params: vec![],
            body: vec![],
        }]
    );
}

#[test]
fn errors_are_made_of_a_place_and_a_kind() {
    let token = Token::new(TokenType::Comma, 3, 9);
    let error = Error::new(1, 2, ErrorTypes::RuntimeError("boom".to_string()));
    assert_eq!((error.line, error.column), (1, 2));
    assert_eq!(error.error_type, ErrorTypes::RuntimeError("boom".to_string()));
    assert_eq!(
        Error::syntax_error(&token, "x"),
        Error::new(
            3,
            9,
            ErrorTypes::SyntaxError(SyntaxError::UnexpectedToken(
                Some(token.clone()),
                "x".to_string()
            ))
        )
    );
    assert_eq!(
        Error::unexpected_eof(),
        Error::new(0, 0, ErrorTypes::SyntaxError(SyntaxError::UnexpectedEof))
    );
    assert_eq!(BinaryOp::from_operator(&Operator::Multiply), BinaryOp::Multiply);
    assert_eq!(
        BinaryOp::from_comparison(&Comparison::GreaterThanOrEqual),
        BinaryOp::GreaterThanOrEqual
    );
}

#[test]
fn errors_are_written_with_their_place() {
    let runtime = Error::new(3, 14, ErrorTypes::RuntimeError("boom".to_string()));
    assert_eq!(runtime.to_text(), "Error at line 3, column 14: Runtime error: boom");
    assert_eq!(runtime.error_type.to_text(), "Runtime error: boom");
    let lexical = Error::new(0, 0, ErrorTypes::LexicalError("bad".to_string()));
    assert_eq!(lexical.to_text(), "Error at line 0, column 0: Lexical error: bad");
    let eof = Error::unexpected_eof();
    assert_eq!(eof.to_text(), "Error at line 0, column 0: Syntax error: UnexpectedEof");
    let far = Error::new(u32::MAX, 7, ErrorTypes::RuntimeError(String::new()));
    assert_eq!(far.to_text(), "Error at line 4294967295, column 7: Runtime error: ");
}
