use robot_battle::ast::{Command, Section};
use robot_battle::parser::{parse_tokens, ParseError};
use robot_battle::tokenizer::{tokenize_script, Token};

#[test]
fn test_parse_simple_commands() {
    let script = "
            move forward 5
            rotate turret 90
            scan
            fire
        ";
    let tokens = tokenize_script(script);
    let ast = parse_tokens(&tokens).unwrap();
    assert_eq!(
        ast,
        vec![
            Command::Move {
                direction: "forward".to_string(),
                distance: 5
            },
            Command::Rotate {
                section: Section::Turret,
                angle: 90
            },
            Command::Scan,
            Command::Fire,
        ]
    );
}

#[test]
fn test_parse_loop_block() {
    let script = "
            loop {
                scan
                move forward 1
                fire
            }
        ";
    let tokens = tokenize_script(script);
    let ast = parse_tokens(&tokens).unwrap();
    assert_eq!(
        ast,
        vec![Command::Loop {
            block: vec![
                Command::Scan,
                Command::Move {
                    direction: "forward".to_string(),
                    distance: 1
                },
                Command::Fire,
            ]
        }]
    );
}

#[test]
fn test_parse_inline_loop_block() {
    // A whole block on one line parses the same way: keywords are
    // recognized at any position in a line.
    let tokens = tokenize_script("loop { scan move forward 1 fire }");
    let ast = parse_tokens(&tokens).unwrap();
    assert_eq!(
        ast,
        vec![Command::Loop {
            block: vec![
                Command::Scan,
                Command::Move {
                    direction: "forward".to_string(),
                    distance: 1
                },
                Command::Fire,
            ]
        }]
    );
}

#[test]
fn test_parse_nested_loops() {
    let script = "
            loop {
                loop {
                    scan
                }
                fire
            }
        ";
    let tokens = tokenize_script(script);
    let ast = parse_tokens(&tokens).unwrap();
    assert_eq!(
        ast,
        vec![Command::Loop {
            block: vec![
                Command::Loop {
                    block: vec![Command::Scan,]
                },
                Command::Fire,
            ]
        }]
    );
}

#[test]
fn test_parse_missing_distance() {
    let tokens = tokenize_script("move forward");
    let r = parse_tokens(&tokens);
    assert!(matches!(r, Err(ParseError::UnexpectedEOF)));
}

#[test]
fn test_parse_wrong_direction_token() {
    // A number where the direction identifier should stand.
    let tokens = tokenize_script("move 5 5");
    let r = parse_tokens(&tokens);
    assert!(matches!(r, Err(ParseError::UnexpectedToken(Token::Number(5)))));
}

#[test]
fn test_parse_bad_section() {
    let tokens = tokenize_script("rotate treads 90");
    let r = parse_tokens(&tokens);
    match r {
        Err(ParseError::UnexpectedToken(Token::Identifier(w))) => assert_eq!(w, "treads"),
        other => panic!("expected an unexpected-token error, got {:?}", other),
    }
}

#[test]
fn test_parse_invalid_command() {
    let tokens = tokenize_script("while");
    let r = parse_tokens(&tokens);
    assert!(matches!(r, Err(ParseError::InvalidCommand)));
}

#[test]
fn test_parse_statement_cannot_start_with_number() {
    let tokens = tokenize_script("42");
    let r = parse_tokens(&tokens);
    assert!(matches!(r, Err(ParseError::UnexpectedToken(Token::Number(42)))));
}

#[test]
fn test_parse_unclosed_loop_closes_at_end() {
    let tokens = tokenize_script("loop {\nfire");
    let ast = parse_tokens(&tokens).unwrap();
    assert_eq!(
        ast,
        vec![Command::Loop {
            block: vec![Command::Fire]
        }]
    );
}

#[test]
fn test_parse_stray_braces_skipped() {
    let tokens = tokenize_script("}\nfire\n{");
    let ast = parse_tokens(&tokens).unwrap();
    assert_eq!(ast, vec![Command::Fire]);
}

#[test]
fn test_compile_deterministic() {
    // One and the same script always tokenizes and parses to the same result.
    let script = "loop {\nmove forward 2\nrotate body -90\n}";
    let first = parse_tokens(&tokenize_script(script)).unwrap();
    let second = parse_tokens(&tokenize_script(script)).unwrap();
    assert_eq!(first, second);
}

#[test]
fn test_empty_script_parses_to_no_commands() {
    let tokens = tokenize_script("");
    assert!(tokens.is_empty());
    let ast = parse_tokens(&tokens).unwrap();
    assert!(ast.is_empty());
}
