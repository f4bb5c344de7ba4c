use netlist_explorer::parser::error::ParseError;
use netlist_explorer::parser::kicad_scanner::{scan_all, Scanner, Token};

fn scan(a: &str) -> Result<Vec<Token>, ParseError> {
    let mut scanner = Scanner::new(a);
    let mut tokens = Vec::new();
    while let Some(token) = scanner.next() {
        tokens.push(token?);
    }
    Ok(tokens)
}

fn assert_scanned_list(a: &str, b: &[Token]) {
    let tokens = scan(a).expect("tokens");
    assert_eq!(tokens.as_slice(), b);
    assert_eq!(scan_all(a).expect("tokens").as_slice(), b);
}

fn assert_error(a: &str) {
    let result = scan(a);

    assert!(result.is_err());
}

#[test]
fn scans_simple_list() {
    assert_scanned_list("(export)", &[
        Token::LParen,
        Token::Symbol("export".to_string()),
        Token::RParen,
    ]);
}

#[test]
fn scans_atom_at_eof() {
    assert_scanned_list("export", &[
        Token::Symbol("export".to_string()),
    ]);
}

#[test]
fn scans_empty() {
    assert_scanned_list("", &[
    ]);
}

#[test]
fn scans_whitespace() {
    assert_scanned_list("\t\n ", &[
    ]);
}

#[test]
fn scans_string() {
    assert_scanned_list(r#""str""#, &[
        Token::Value("str".to_string()),
    ]);
}

#[test]
fn scans_space_in_string() {
    assert_scanned_list(r#""s tr""#, &[
        Token::Value("s tr".to_string()),
    ]);
}

#[test]
fn scans_paren_in_string() {
    assert_scanned_list(r#""s()tr""#, &[
        Token::Value("s()tr".to_string()),
    ]);
}

#[test]
fn scans_escaped_quote_in_string() {
    assert_scanned_list(r#""s\"tr""#, &[
        Token::Value(r#"s"tr"#.to_string()),
    ]);
}

#[test]
fn scans_escaped_slash_in_string() {
    assert_scanned_list(r#""s\\""#, &[
        Token::Value(r#"s\"#.to_string()),
    ]);
}

#[test]
fn scans_escaped_slash_quote_in_string() {
    assert_scanned_list(r#""s\\\"a""#, &[
        Token::Value(r#"s\"a"#.to_string()),
    ]);
}

#[test]
fn scans_empty_string() {
    assert_scanned_list(r#"("")"#, &[
        Token::LParen,
        Token::Value("".to_string()),
        Token::RParen,
    ]);
}

#[test]
fn scans_no_space_parens() {
    assert_scanned_list("(a(b c)d)", &[
        Token::LParen,
        Token::Symbol("a".to_string()),
        Token::LParen,
        Token::Symbol("b".to_string()),
        Token::Symbol("c".to_string()),
        Token::RParen,
        Token::Symbol("d".to_string()),
        Token::RParen,
    ]);
}

#[test]
fn scans_mixed_whitespace() {
    assert_scanned_list("(a\n\t b)", &[
        Token::LParen,
        Token::Symbol("a".to_string()),
        Token::Symbol("b".to_string()),
        Token::RParen,
    ]);

}

#[test]
fn scans_mixed_whitespace_in_string() {
    assert_scanned_list("\"(a\n\t b)\"", &[
        Token::Value("(a\n\t b)".to_string()),
    ]);

}

#[test]
fn scans_utf8() {
    assert_scanned_list(r#"(title "Krets Öåä µΩ")"#, &[
        Token::LParen,
        Token::Symbol("title".to_string()),
        Token::Value("Krets Öåä µΩ".to_string()),
        Token::RParen,
    ]);

}

#[test]
fn scans_unterminated_string() {
    assert_error(r#"(title "board"#);
}

#[test]
fn scans_trailing_backslash_in_string() {
    assert_error(r#"(title "\"#);
}

#[test]
fn an_open_string_is_named_as_such() {
    assert_eq!(scan_all(r#"(title "board"#), Err(ParseError::UnterminatedString));
    assert_eq!(scan_all(r#"(title "\"#), Err(ParseError::UnterminatedString));
}

#[test]
fn unicode_spaces_part_symbols() {
    assert_scanned_list("a\u{a0}b\u{2003}c", &[
        Token::sym("a"),
        Token::sym("b"),
        Token::sym("c"),
    ]);
}

#[test]
fn tokens_compare_by_kind_and_text() {
    assert!(Token::sym("a").same(&Token::sym("a")));
    assert!(!Token::sym("a").same(&Token::Value("a".to_string())));
    assert!(!Token::LParen.same(&Token::RParen));
    assert_eq!(Token::Value("x".to_string()).duplicate(), Token::Value("x".to_string()));
}

fn written(tokens: &[Token]) -> String {
    let mut out = String::new();
    for token in tokens {
        match token {
            Token::LParen => out.push('('),
            Token::RParen => out.push(')'),
            Token::Symbol(name) => {
                out.push_str(name);
                out.push(' ');
            }
            Token::Value(body) => {
                out.push('"');
                for c in body.chars() {
                    if c == '"' || c == '\\' {
                        out.push('\\');
                    }
                    out.push(c);
                }
                out.push('"');
            }
        }
    }
    out
}

#[test]
fn written_tokens_are_read_back() {
    let tokens = [
        Token::LParen,
        Token::sym("title"),
        Token::sym("rev"),
        Token::Value("a \"b\" \\ (c)\n".to_string()),
        Token::Value(String::new()),
        Token::RParen,
    ];
    assert_eq!(written(&tokens), "(title rev \"a \\\"b\\\" \\\\ (c)\n\"\"\")");
    assert_scanned_list(&written(&tokens), &tokens);
}

#[test]
fn a_quoted_text_is_scanned_as_it_was() {
    for text in ["", "a b", "a\nb", "(x)", "\"", "\\", "\\\"", "\u{3a9}\u{2003}"] {
        let value = Token::Value(text.to_string());
        let mut scanner = Scanner::new(&(written(&[Token::Value(text.to_string())]) + " rest"));
        assert_eq!(scanner.scan_string(), Ok(value));
        assert_eq!(scanner.next(), Some(Ok(Token::sym("rest"))));
        assert!(scanner.next().is_none());
    }
}

#[test]
fn symbols_hold_no_delimiter() {
    for token in scan_all("(a\tb(c)\"d e\"f\u{3000}g").expect("tokens") {
        if let Token::Symbol(name) = token {
            assert!(!name.is_empty());
            assert!(!name.contains(|c: char| c.is_whitespace() || "()\"".contains(c)));
        }
    }
}
