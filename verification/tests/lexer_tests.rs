use arith_eval::{
    chars_to_integer, get_next_token, validate_token_type, ErrorKind, EvalError, Source, Token,
    TokenType, TokenValue,
};

#[test]
fn test_token() {
    Token::new(TokenType::EOF, TokenValue::Eof);
}

#[test]
fn test_next_token_empty_source() {
    let mut source = Source::new(String::from(""));
    let token = get_next_token(&mut source).unwrap();
    assert_eq!(source.index, 0);
    match token.ttype { TokenType::EOF => assert!(true), _ => assert!(false), };
    match token.value { TokenValue::Eof => assert!(true), _ => assert!(false), };
}

#[test]
fn test_next_token_gets_digit() {
    let mut source = Source::new(String::from("0"));
    let token = get_next_token(&mut source).unwrap();
    assert_eq!(source.index, 1);
    match token.ttype { TokenType::INTEGER => assert!(true), _ => assert!(false), };
    match token.value { TokenValue::Integer(0) => assert!(true), _ => assert!(false), };

    let mut source = Source::new(String::from("1"));
    let token = get_next_token(&mut source).unwrap();
    assert_eq!(source.index, 1);
    match token.ttype { TokenType::INTEGER => assert!(true), _ => assert!(false), };
    match token.value { TokenValue::Integer(1) => assert!(true), _ => assert!(false), };

    let mut source = Source::new(String::from("+"));
    let token = get_next_token(&mut source).unwrap();
    assert_eq!(source.index, 1);
    match token.ttype { TokenType::OPERATOR => assert!(true), _ => assert!(false), };
    match token.value { TokenValue::Plus => assert!(true), _ => assert!(false), };
}

#[test]
fn test_multi_digit_integer_token() {
    let mut source = Source::new(String::from("1234"));
    let token = get_next_token(&mut source).unwrap();
    assert_eq!(source.index, 4);
    match token.ttype { TokenType::INTEGER => assert!(true), _ => assert!(false), };
    match token.value { TokenValue::Integer(1234) => assert!(true), _ => assert!(false), };
}

#[test]
fn test_token_mutability_and_index() {
    let mut source = Source::new(String::from(""));
    assert_eq!(source.index, 0);
    source.inc_index();
    assert_eq!(source.index, 1);
    source.inc_index();
    assert_eq!(source.index, 2);
    source.inc_index();
    assert_eq!(source.index, 3);

    source.index = 10;
    assert_eq!(source.index, 10);
    source.index = 20;
    assert_eq!(source.index, 20);
    source.index = 30;
    assert_eq!(source.index, 30);
    source.index = 40;
    assert_eq!(source.index, 40);
}

#[test]
fn new_source_keeps_the_text() {
    let source = Source::new(String::from("1 + 2"));
    assert_eq!(source.text, "1 + 2");
    assert_eq!(source.index, 0);
}

#[test]
fn token_new_keeps_both_parts() {
    let token = Token::new(TokenType::INTEGER, TokenValue::Integer(7));
    assert_eq!(token.ttype, TokenType::INTEGER);
    assert_eq!(token.value, TokenValue::Integer(7));
}

#[test]
fn validate_token_type_compares_classes() {
    let integer = Token::new(TokenType::INTEGER, TokenValue::Integer(3));
    let operator = Token::new(TokenType::OPERATOR, TokenValue::Div);
    let end = Token::new(TokenType::EOF, TokenValue::Eof);
    assert!(validate_token_type(&integer, TokenType::INTEGER));
    assert!(validate_token_type(&operator, TokenType::OPERATOR));
    assert!(validate_token_type(&end, TokenType::EOF));
    assert!(!validate_token_type(&integer, TokenType::OPERATOR));
    assert!(!validate_token_type(&integer, TokenType::EOF));
    assert!(!validate_token_type(&operator, TokenType::INTEGER));
    assert!(!validate_token_type(&operator, TokenType::EOF));
    assert!(!validate_token_type(&end, TokenType::INTEGER));
    assert!(!validate_token_type(&end, TokenType::OPERATOR));
}

#[test]
fn every_operator_is_one_character() {
    let mut source = Source::new(String::from("+-*/"));
    let expected = [TokenValue::Plus, TokenValue::Minus, TokenValue::Mult, TokenValue::Div];
    for (i, value) in expected.iter().enumerate() {
        let token = get_next_token(&mut source).unwrap();
        assert_eq!(token.ttype, TokenType::OPERATOR);
        assert_eq!(token.value, *value);
        assert_eq!(source.index, i + 1);
    }
    let token = get_next_token(&mut source).unwrap();
    assert_eq!(token, Token::new(TokenType::EOF, TokenValue::Eof));
    assert_eq!(source.index, 4);
}

#[test]
fn spaces_before_a_token_are_skipped() {
    let mut source = Source::new(String::from("   42  *"));
    let token = get_next_token(&mut source).unwrap();
    assert_eq!(token, Token::new(TokenType::INTEGER, TokenValue::Integer(42)));
    assert_eq!(source.index, 5);
    let token = get_next_token(&mut source).unwrap();
    assert_eq!(token, Token::new(TokenType::OPERATOR, TokenValue::Mult));
    assert_eq!(source.index, 8);
}

#[test]
fn digit_run_stops_at_the_first_non_digit() {
    let mut source = Source::new(String::from("12+34"));
    let token = get_next_token(&mut source).unwrap();
    assert_eq!(token.value, TokenValue::Integer(12));
    assert_eq!(source.index, 2);

    let mut source = Source::new(String::from("12 34"));
    let token = get_next_token(&mut source).unwrap();
    assert_eq!(token.value, TokenValue::Integer(12));
    assert_eq!(source.index, 2);
    let token = get_next_token(&mut source).unwrap();
    assert_eq!(token.value, TokenValue::Integer(34));
    assert_eq!(source.index, 5);
}

#[test]
fn end_of_input_behind_spaces() {
    let mut source = Source::new(String::from("7   "));
    assert_eq!(get_next_token(&mut source).unwrap().value, TokenValue::Integer(7));
    assert_eq!(source.index, 1);
    let token = get_next_token(&mut source).unwrap();
    assert_eq!(token, Token::new(TokenType::EOF, TokenValue::Eof));
    assert_eq!(source.index, 4);
    let token = get_next_token(&mut source).unwrap();
    assert_eq!(token, Token::new(TokenType::EOF, TokenValue::Eof));
    assert_eq!(source.index, 4);
}

#[test]
fn cursor_behind_the_end_does_not_move() {
    let mut source = Source::new(String::from("12"));
    source.index = 5;
    let token = get_next_token(&mut source).unwrap();
    assert_eq!(token, Token::new(TokenType::EOF, TokenValue::Eof));
    assert_eq!(source.index, 5);
}

#[test]
fn illegal_character_is_named_with_its_offset() {
    let mut source = Source::new(String::from("1&2"));
    assert_eq!(get_next_token(&mut source).unwrap().value, TokenValue::Integer(1));
    let error = get_next_token(&mut source).unwrap_err();
    assert_eq!(error, EvalError { kind: ErrorKind::Lexical('&'), offset: 1 });
    assert_eq!(source.index, 1);

    let mut source = Source::new(String::from("  (3)"));
    let error = get_next_token(&mut source).unwrap_err();
    assert_eq!(error, EvalError { kind: ErrorKind::Lexical('('), offset: 2 });
    assert_eq!(source.index, 2);
}

#[test]
fn other_white_space_is_illegal() {
    let mut source = Source::new(String::from("1\t+ 2"));
    assert_eq!(get_next_token(&mut source).unwrap().value, TokenValue::Integer(1));
    let error = get_next_token(&mut source).unwrap_err();
    assert_eq!(error, EvalError { kind: ErrorKind::Lexical('\t'), offset: 1 });
}

#[test]
fn offsets_count_characters() {
    let mut source = Source::new(String::from("é+\u{663}"));
    let error = get_next_token(&mut source).unwrap_err();
    assert_eq!(error, EvalError { kind: ErrorKind::Lexical('é'), offset: 0 });
    source.index = 1;
    assert_eq!(get_next_token(&mut source).unwrap().value, TokenValue::Plus);
    assert_eq!(source.index, 2);
    let error = get_next_token(&mut source).unwrap_err();
    assert_eq!(error, EvalError { kind: ErrorKind::Lexical('\u{663}'), offset: 2 });
    source.index = 3;
    assert_eq!(get_next_token(&mut source).unwrap().value, TokenValue::Eof);
    assert_eq!(source.index, 3);
}

#[test]
fn largest_integer_is_read() {
    let mut source = Source::new(String::from("9223372036854775807"));
    let token = get_next_token(&mut source).unwrap();
    assert_eq!(token.value, TokenValue::Integer(i64::MAX));
    assert_eq!(source.index, 19);
}

#[test]
fn integer_above_the_range_fails_behind_its_digits() {
    let mut source = Source::new(String::from(" 9223372036854775808+1"));
    let error = get_next_token(&mut source).unwrap_err();
    assert_eq!(error, EvalError { kind: ErrorKind::IntegerOverflow, offset: 20 });
    assert_eq!(source.index, 20);

    let mut source = Source::new(String::from("123456789012345678901234567890"));
    let error = get_next_token(&mut source).unwrap_err();
    assert_eq!(error, EvalError { kind: ErrorKind::IntegerOverflow, offset: 30 });
    assert_eq!(source.index, 30);
}

#[test]
fn leading_zeros_do_not_count() {
    let mut source = Source::new(String::from("000000000000000000000000000000000017"));
    let token = get_next_token(&mut source).unwrap();
    assert_eq!(token.value, TokenValue::Integer(17));
    assert_eq!(source.index, 36);
}

#[test]
fn chars_to_integer_reads_one_run() {
    let mut source = Source::new(String::from("123abc"));
    assert_eq!(chars_to_integer(&mut source), Ok(123));
    assert_eq!(source.index, 3);

    let mut source = Source::new(String::from("x907"));
    source.index = 1;
    assert_eq!(chars_to_integer(&mut source), Ok(907));
    assert_eq!(source.index, 4);

    let mut source = Source::new(String::from("99999999999999999999 "));
    assert_eq!(
        chars_to_integer(&mut source),
        Err(EvalError { kind: ErrorKind::IntegerOverflow, offset: 20 })
    );
    assert_eq!(source.index, 20);
}

#[test]
fn reading_again_from_a_restored_cursor_gives_the_same_token() {
    let mut source = Source::new(String::from("12  * 3"));
    get_next_token(&mut source).unwrap();
    let saved = source.index;
    let first = get_next_token(&mut source).unwrap();
    let after_first = source.index;
    source.index = saved;
    let second = get_next_token(&mut source).unwrap();
    assert_eq!(first, second);
    assert_eq!(first.value, TokenValue::Mult);
    assert_eq!(source.index, after_first);
    assert_eq!(source.text, "12  * 3");
}
