use mouse_lang::lexer::{tokenize, Comparison, Operator, Token, TokenType};

/// A second reading of the lexer, written with a character iterator, to
/// hold the library against.
fn walk(input: &str) -> Vec<Token> {
    let mut tokens = Vec::new();
    let mut chars = input.chars().peekable();
    let mut line: u32 = 0;
    let mut column: u32 = 0;
    fn skip_line(
        chars: &mut std::iter::Peekable<std::str::Chars<'_>>,
        line: &mut u32,
        column: &mut u32,
    ) {
        while let Some(c) = chars.next() {
            if c == '\n' {
                *line += 1;
                *column = 0;
                break;
            }
        }
    }
    while let Some(c) = chars.next() {
        column += 1;
        let followed_by_equal = chars.peek() == Some(&'=');
        let mut emit = |kind: TokenType| tokens.push(Token::new(kind, line, column));
        match c {
            '\n' => {
                line += 1;
                column = 0;
            }
            ' ' | '\t' => {}
            ';' => emit(TokenType::Semicolon),
            ',' => emit(TokenType::Comma),
            '.' => emit(TokenType::Dot),
            '(' => emit(TokenType::BracketOpen),
            ')' => emit(TokenType::BracketClose),
            '{' => emit(TokenType::BraceOpen),
            '}' => emit(TokenType::BraceClose),
            '+' => emit(TokenType::Operator(Operator::Add)),
            '-' => emit(TokenType::Operator(Operator::Subtract)),
            '*' => emit(TokenType::Operator(Operator::Multiply)),
            '/' => {
                if chars.peek() == Some(&'/') {
                    chars.next();
                    skip_line(&mut chars, &mut line, &mut column);
                } else {
                    emit(TokenType::Operator(Operator::Divide));
                }
            }
            '#' => {
                chars.next();
                skip_line(&mut chars, &mut line, &mut column);
            }
            '=' | '!' | '<' | '>' => {
                if followed_by_equal {
                    chars.next();
                }
                let kind = match (c, followed_by_equal) {
                    ('=', true) => Some(TokenType::Comparison(Comparison::Equal)),
                    ('=', false) => Some(TokenType::Assign),
                    ('!', true) => Some(TokenType::Comparison(Comparison::NotEqual)),
                    ('!', false) => None,
                    ('<', true) => Some(TokenType::Comparison(Comparison::LessThanOrEqual)),
                    ('<', false) => Some(TokenType::Comparison(Comparison::LessThan)),
                    ('>', true) => Some(TokenType::Comparison(Comparison::GreaterThanOrEqual)),
                    _ => Some(TokenType::Comparison(Comparison::GreaterThan)),
                };
                if let Some(kind) = kind {
                    emit(kind);
                }
            }
            '"' => {
                let mut text = String::new();
                for c in chars.by_ref() {
                    if c == '"' {
                        break;
                    }
                    text.push(c);
                }
                emit(TokenType::String(text));
            }
            _ if c.is_ascii_digit() => {
                let mut number = String::from(c);
                while let Some(d) = chars.next_if(|d| d.is_ascii_digit()) {
                    number.push(d);
                }
                if let Ok(n) = number.parse::<i32>() {
                    emit(TokenType::Number(n));
                }
            }
            _ if c.is_alphabetic() || c == '_' => {
                let mut word = String::from(c);
                loop {
                    if let Some(d) = chars.next_if(|d| d.is_alphanumeric() || *d == '_') {
                        word.push(d);
                    } else if chars.next_if_eq(&'.').is_some() {
                        emit(TokenType::ObjectName(std::mem::take(&mut word)));
                    } else {
                        break;
                    }
                }
                emit(match word.as_str() {
                    "let" | "var" | "const" => TokenType::KWLet,
                    "fn" | "function" | "def" => TokenType::KWFn,
                    "return" => TokenType::KWReturn,
                    "if" => TokenType::KWIf,
                    "while" => TokenType::KWWhile,
                    _ => TokenType::Identifier(word),
                });
            }
            _ => {}
        }
    }
    tokens
}

#[test]
fn the_lexer_reads_programs_as_the_walk_does() {
    for code in [
        "",
        "let x = 42;",
        "fn add(a, b) {\n  return a + b;\n}\nlet r = add(1, 2) // end",
        "std.print(\"a.b\", x.y.z, 3.5)\n# note\n#\nnext line is eaten",
        "a<=b>=c==d!=e<f>g=h!i",
        "\"open string\nwith a line",
        "x = 99999999999 + 2147483647 - 007;",
        "wëird_names ярлык 変数1 _ __ a1.b2.",
        "tab\tseparated\t\tvalues\n\n\nlines",
        "/ // /\n/ #/\n/",
        "#",
        "# ",
        "//",
        "a.",
        ".a.",
        "let.var.const.fn",
        "1a 1.2 a.1",
    ] {
        assert_eq!(tokenize(code.to_string()), walk(code), "for {:?}", code);
    }
}

#[test]
fn the_lexer_reads_random_text_as_the_walk_does() {
    let alphabet: Vec<char> = " \t\n;,.(){}+-*/#=!<>\"09a1lzetrunifwh_ß語\r@".chars().collect();
    let mut seed: u64 = 0x2545f4914f6cdd1d;
    for round in 0..3000 {
        let mut code = String::new();
        let length = round % 40;
        for _ in 0..length {
            seed ^= seed << 13;
            seed ^= seed >> 7;
            seed ^= seed << 17;
            code.push(alphabet[(seed % alphabet.len() as u64) as usize]);
        }
        assert_eq!(tokenize(code.clone()), walk(&code), "for {:?}", code);
    }
}
