use robot_battle::tokenizer::{tokenize_line, tokenize_script, Token};

#[test]
fn test_tokenize_line_basic() {
    let line = "rotate treads 90";
    let tokens = tokenize_line(line);
    assert_eq!(
        tokens,
        vec![
            Token::Keyword("rotate".to_string()),
            Token::Identifier("treads".to_string()),
            Token::Number(90)
        ]
    );
}

#[test]
fn test_tokenize_line_symbols() {
    let line = "if scan > 0 {";
    let tokens = tokenize_line(line);
    assert_eq!(
        tokens,
        vec![
            Token::Keyword("if".to_string()),
            Token::Keyword("scan".to_string()),
            Token::Identifier(">".to_string()),
            Token::Number(0),
            Token::Symbol('{')
        ]
    );
}

#[test]
fn test_tokenize_script_multiline() {
    let script = "\nrotate treads 90\nmove forward 10\nscan\nfire\nif scan > 0 {\n    fire\n}\n";
    let tokens = tokenize_script(script);
    let expected = vec![
        Token::Keyword("rotate".to_string()),
        Token::Identifier("treads".to_string()),
        Token::Number(90),
        Token::Keyword("move".to_string()),
        Token::Identifier("forward".to_string()),
        Token::Number(10),
        Token::Keyword("scan".to_string()),
        Token::Keyword("fire".to_string()),
        Token::Keyword("if".to_string()),
        Token::Keyword("scan".to_string()),
        Token::Identifier(">".to_string()),
        Token::Number(0),
        Token::Symbol('{'),
        Token::Keyword("fire".to_string()),
        Token::Symbol('}'),
    ];
    assert_eq!(tokens, expected);
}

#[test]
fn test_tokenize_keyword_any_position() {
    // Every word is checked against the keyword set, wherever it stands.
    let tokens = tokenize_line("move loop 3");
    assert_eq!(
        tokens,
        vec![
            Token::Keyword("move".to_string()),
            Token::Keyword("loop".to_string()),
            Token::Number(3)
        ]
    );
}

#[test]
fn test_tokenize_unicode_whitespace_splits() {
    // Words split on any Unicode white-space character, here a no-break
    // space and an em quad.
    let tokens = tokenize_line("fire\u{a0}scan\u{2001}7");
    assert_eq!(
        tokens,
        vec![
            Token::Keyword("fire".to_string()),
            Token::Keyword("scan".to_string()),
            Token::Number(7)
        ]
    );
}

#[test]
fn test_tokenize_blank_lines_and_spacing() {
    let tokens = tokenize_script("\n\n   \n\tfire\n\n");
    assert_eq!(tokens, vec![Token::Keyword("fire".to_string())]);
}

#[test]
fn test_tokenize_number_limits() {
    assert_eq!(tokenize_line("2147483647"), vec![Token::Number(2147483647)]);
    assert_eq!(
        tokenize_line("2147483648"),
        vec![Token::Identifier("2147483648".to_string())]
    );
    assert_eq!(tokenize_line("-2147483648"), vec![Token::Number(-2147483648)]);
    assert_eq!(
        tokenize_line("-2147483649"),
        vec![Token::Identifier("-2147483649".to_string())]
    );
}

#[test]
fn test_tokenize_number_forms() {
    assert_eq!(tokenize_line("+7"), vec![Token::Number(7)]);
    assert_eq!(tokenize_line("007"), vec![Token::Number(7)]);
    assert_eq!(tokenize_line("-"), vec![Token::Identifier("-".to_string())]);
    assert_eq!(tokenize_line("12a"), vec![Token::Identifier("12a".to_string())]);
    assert_eq!(tokenize_line("("), vec![Token::Symbol('(')]);
    assert_eq!(tokenize_line(")"), vec![Token::Symbol(')')]);
}
