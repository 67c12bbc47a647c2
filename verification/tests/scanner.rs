use dice_stats_lang::token::{is_keyword_character, read_token, Token, TokenError, TokenType};

/// Drain `input` from the initial scanner state, stopping at end of
/// input, and collect the tokens; panics on a scan error.
fn scan_all(input: &str) -> Vec<Token> {
    let mut actual_tokens: Vec<Token> = vec![];
    let mut pos: usize = 0;
    let mut current_line: usize = 1;
    let mut current_column: usize = 1;
    let len: usize = input.chars().count();
    while pos < len {
        let token = read_token(input, &mut pos, &mut current_line, &mut current_column).unwrap();
        actual_tokens.push(token);
    }
    actual_tokens
}

#[test]
fn test_single_character_tokens() {
    let input = "( ) { }\n+ - * /\n. ! -420";

    let expected_tokens: Vec<Token> = vec![
        Token::new(TokenType::LeftParen, 1, 1),
        Token::new(TokenType::RightParen, 1, 3),
        Token::new(TokenType::LeftBrace, 1, 5),
        Token::new(TokenType::RightBrace, 1, 7),
        Token::new(TokenType::Plus, 2, 1),
        Token::new(TokenType::Minus, 2, 3),
        Token::new(TokenType::Star, 2, 5),
        Token::new(TokenType::Slash, 2, 7),
        Token::new(TokenType::Dot, 3, 1),
        Token::new(TokenType::Bang, 3, 3),
        Token::new(TokenType::Minus, 3, 5),
        Token::new(TokenType::Int(420), 3, 6),
    ];

    assert_eq!(expected_tokens, scan_all(input));
}

#[test]
fn test_integers() {
    let input = "1 10 1234 -420";

    let expected_tokens: Vec<Token> = vec![
        Token::new(TokenType::Int(1), 1, 1),
        Token::new(TokenType::Int(10), 1, 3),
        Token::new(TokenType::Int(1234), 1, 6),
        Token::new(TokenType::Minus, 1, 11),
        Token::new(TokenType::Int(420), 1, 12),
    ];

    assert_eq!(expected_tokens, scan_all(input));
}

#[test]
fn test_literals() {
    let input = "die d 2d4k6 keep drop explode emphasis";

    let expected_tokens: Vec<Token> = vec![
        Token::new(TokenType::Die(true), 1, 1),
        Token::new(TokenType::Die(false), 1, 5),
        Token::new(TokenType::Int(2), 1, 7),
        Token::new(TokenType::Die(false), 1, 8),
        Token::new(TokenType::Int(4), 1, 9),
        Token::new(TokenType::Keep(false), 1, 10),
        Token::new(TokenType::Int(6), 1, 11),
        Token::new(TokenType::Keep(true), 1, 13),
        Token::new(TokenType::Drop, 1, 18),
        Token::new(TokenType::Explode, 1, 23),
        Token::new(TokenType::Emphasis, 1, 31),
    ];

    assert_eq!(expected_tokens, scan_all(input));
}

#[test]
fn test_each_operator_alone_at_line_one_column_one() {
    let cases: Vec<(&str, TokenType)> = vec![
        ("(", TokenType::LeftParen),
        (")", TokenType::RightParen),
        ("{", TokenType::LeftBrace),
        ("}", TokenType::RightBrace),
        ("+", TokenType::Plus),
        ("-", TokenType::Minus),
        ("*", TokenType::Star),
        ("/", TokenType::Slash),
        (".", TokenType::Dot),
        ("!", TokenType::Bang),
    ];
    for (input, expected) in cases {
        let tokens = scan_all(input);
        assert_eq!(tokens, vec![Token::new(expected, 1, 1)]);
    }
}

#[test]
fn test_number_overflow_keeps_raw_digits() {
    let input = "99999999999";
    let mut pos: usize = 0;
    let mut current_line: usize = 1;
    let mut current_column: usize = 1;
    let result = read_token(input, &mut pos, &mut current_line, &mut current_column);
    match result {
        Err(TokenError::InvalidNumberToken(raw)) => assert_eq!(raw, "99999999999"),
        other => panic!("expected InvalidNumberToken, got {:?}", other),
    }
    // the whole digit run is consumed
    assert_eq!(pos, 11);
}

#[test]
fn test_number_overflow_boundary() {
    assert_eq!(
        scan_all("2147483647"),
        vec![Token::new(TokenType::Int(2147483647), 1, 1)]
    );

    let input = "2147483648";
    let mut pos: usize = 0;
    let mut current_line: usize = 1;
    let mut current_column: usize = 1;
    let result = read_token(input, &mut pos, &mut current_line, &mut current_column);
    match result {
        Err(TokenError::InvalidNumberToken(raw)) => assert_eq!(raw, "2147483648"),
        other => panic!("expected InvalidNumberToken, got {:?}", other),
    }
}

#[test]
fn test_unsupported_character_is_consumed() {
    let input = "ab @ cd";
    let mut pos: usize = 0;
    let mut current_line: usize = 1;
    let mut current_column: usize = 1;

    let first = read_token(input, &mut pos, &mut current_line, &mut current_column).unwrap();
    assert_eq!(first, Token::new(TokenType::Unrecognized(String::from("ab")), 1, 1));

    let result = read_token(input, &mut pos, &mut current_line, &mut current_column);
    match result {
        Err(TokenError::UnsupportedToken(raw)) => assert_eq!(raw, "@"),
        other => panic!("expected UnsupportedToken, got {:?}", other),
    }
    // the offending character is consumed: scanning can go on past it
    assert_eq!(pos, 4);
    let after = read_token(input, &mut pos, &mut current_line, &mut current_column).unwrap();
    assert_eq!(after.token_type, TokenType::Unrecognized(String::from("cd")));
}

#[test]
fn test_hash_character_is_unsupported() {
    let input = "#";
    let mut pos: usize = 0;
    let mut current_line: usize = 1;
    let mut current_column: usize = 1;
    let result = read_token(input, &mut pos, &mut current_line, &mut current_column);
    match result {
        Err(TokenError::UnsupportedToken(raw)) => assert_eq!(raw, "#"),
        other => panic!("expected UnsupportedToken, got {:?}", other),
    }
    assert_eq!(pos, 1);
}

#[test]
fn test_leading_underscore_is_unsupported() {
    // an underscore may continue an identifier but not begin one
    let input = "_x";
    let mut pos: usize = 0;
    let mut current_line: usize = 1;
    let mut current_column: usize = 1;
    let result = read_token(input, &mut pos, &mut current_line, &mut current_column);
    match result {
        Err(TokenError::UnsupportedToken(raw)) => assert_eq!(raw, "_"),
        other => panic!("expected UnsupportedToken, got {:?}", other),
    }

    assert_eq!(
        scan_all("a_b"),
        vec![Token::new(TokenType::Unrecognized(String::from("a_b")), 1, 1)]
    );
}

#[test]
fn test_eof_is_repeated_once_input_is_exhausted() {
    let input = "+ ";
    let mut pos: usize = 0;
    let mut current_line: usize = 1;
    let mut current_column: usize = 1;

    let first = read_token(input, &mut pos, &mut current_line, &mut current_column).unwrap();
    assert_eq!(first.token_type, TokenType::Plus);

    for _ in 0..3 {
        let token = read_token(input, &mut pos, &mut current_line, &mut current_column).unwrap();
        assert_eq!(token, Token::new(TokenType::Eof, 1, 3));
        assert_eq!(pos, 2);
    }
}

#[test]
fn test_eof_on_empty_input() {
    let input = "";
    let mut pos: usize = 0;
    let mut current_line: usize = 1;
    let mut current_column: usize = 1;
    let token = read_token(input, &mut pos, &mut current_line, &mut current_column).unwrap();
    assert_eq!(token, Token::new(TokenType::Eof, 1, 1));
}

#[test]
fn test_eof_after_trailing_whitespace() {
    let input = "   ";
    let mut pos: usize = 0;
    let mut current_line: usize = 1;
    let mut current_column: usize = 1;
    let token = read_token(input, &mut pos, &mut current_line, &mut current_column).unwrap();
    assert_eq!(token, Token::new(TokenType::Eof, 1, 4));
}

#[test]
fn test_newline_starts_next_line_at_column_one() {
    let tokens = scan_all("\nx");
    assert_eq!(
        tokens,
        vec![Token::new(TokenType::Unrecognized(String::from("x")), 2, 1)]
    );
}

#[test]
fn test_less_and_less_equal() {
    assert_eq!(scan_all("< a"), vec![
        Token::new(TokenType::Less, 1, 1),
        Token::new(TokenType::Unrecognized(String::from("a")), 1, 3),
    ]);

    // `<=` is recognized by lookahead, but the `=` is not consumed, and
    // `=` alone has no scanning rule
    let input = "<=";
    let mut pos: usize = 0;
    let mut current_line: usize = 1;
    let mut current_column: usize = 1;
    let first = read_token(input, &mut pos, &mut current_line, &mut current_column).unwrap();
    assert_eq!(first, Token::new(TokenType::LessEqual, 1, 1));
    assert_eq!(pos, 1);
    let result = read_token(input, &mut pos, &mut current_line, &mut current_column);
    match result {
        Err(TokenError::UnsupportedToken(raw)) => assert_eq!(raw, "="),
        other => panic!("expected UnsupportedToken, got {:?}", other),
    }
}

#[test]
fn test_unrecognized_identifier_is_a_token_not_an_error() {
    assert_eq!(
        scan_all("emphas"),
        vec![Token::new(TokenType::Unrecognized(String::from("emphas")), 1, 1)]
    );
    assert_eq!(
        scan_all("dies"),
        vec![Token::new(TokenType::Unrecognized(String::from("dies")), 1, 1)]
    );
    assert_eq!(
        scan_all("D"),
        vec![Token::new(TokenType::Unrecognized(String::from("D")), 1, 1)]
    );
}

#[test]
fn test_is_keyword_character() {
    assert!(is_keyword_character(&'a'));
    assert!(is_keyword_character(&'Z'));
    assert!(is_keyword_character(&'_'));
    assert!(!is_keyword_character(&'1'));
    assert!(!is_keyword_character(&' '));
    assert!(!is_keyword_character(&'('));
}
