use arith_eval::{
    evaluate, evaluate_complete, expr, factor, get_next_token, term, ArithmeticFault, ErrorKind,
    EvalError, Source, TokenValue,
};

#[test]
fn test_expression() {
    assert_eq!(expr(&mut Source::new(String::from("1+2"))), Ok(1+2));
    assert_eq!(expr(&mut Source::new(String::from("3+2"))), Ok(3+2));
    assert_eq!(expr(&mut Source::new(String::from("9+7"))), Ok(9+7));
    assert_eq!(expr(&mut Source::new(String::from("9-7"))), Ok(9-7));
}

#[test]
fn test_skip_whitespace() {
    assert_eq!(expr(&mut Source::new(String::from("9 -7"))), Ok(9-7));
    assert_eq!(expr(&mut Source::new(String::from("9   -            7"))), Ok(9-7));
}

#[test]
fn test_multi_digit_integers_plus_minus() {
    assert_eq!(expr(&mut Source::new(String::from("123+456"))), Ok(123+456));
    assert_eq!(expr(&mut Source::new(String::from("123  +       456"))), Ok(123+456));
}

#[test]
fn test_multi_operator_expression() {
    assert_eq!(expr(&mut Source::new(String::from("123  +      456 - 1 + 11    - 2   +  34"))), Ok(123+456-1+11-2+34));
}

#[test]
fn test_mult_div() {
    assert_eq!(expr(&mut Source::new(String::from("4/2"))), Ok(4/2));
    assert_eq!(expr(&mut Source::new(String::from("400 / 3"))), Ok(400/3));
}

#[test]
fn test_plus_minus_mult_div_operator_precedence() {
    assert_eq!(expr(&mut Source::new(String::from("1+1*10"))), Ok(1+1*10));
    assert_eq!(expr(&mut Source::new(String::from("1+0*10-5"))), Ok(1+0*10-5));
}

fn overflow(offset: usize) -> EvalError {
    EvalError { kind: ErrorKind::Arithmetic(ArithmeticFault::Overflow), offset }
}

fn division_by_zero(offset: usize) -> EvalError {
    EvalError { kind: ErrorKind::Arithmetic(ArithmeticFault::DivisionByZero), offset }
}

fn grammar(found: TokenValue, offset: usize) -> EvalError {
    EvalError { kind: ErrorKind::Grammar(found), offset }
}

#[test]
fn two_integers_and_one_operator() {
    assert_eq!(evaluate("12+30"), Ok(42));
    assert_eq!(evaluate("  12   +30 "), Ok(42));
    assert_eq!(evaluate("12-30"), Ok(-18));
    assert_eq!(evaluate(" 12 - 30   "), Ok(-18));
    assert_eq!(evaluate("12*30"), Ok(360));
    assert_eq!(evaluate("12  *  30"), Ok(360));
    assert_eq!(evaluate("30/12"), Ok(2));
    assert_eq!(evaluate("   30/   12"), Ok(2));
    assert_eq!(evaluate("12/30"), Ok(0));
    assert_eq!(evaluate_complete("  12   +30 "), Ok(42));
    assert_eq!(evaluate_complete(" 12 - 30   "), Ok(-18));
    assert_eq!(evaluate_complete("12  *  30"), Ok(360));
    assert_eq!(evaluate_complete("   30/   12 "), Ok(2));
}

#[test]
fn binary_operation_leaves_the_cursor_behind_the_second_integer() {
    let mut source = Source::new(String::from(" 12 - 30   "));
    assert_eq!(expr(&mut source), Ok(-18));
    assert_eq!(source.index, 8);
    assert_eq!(source.text, " 12 - 30   ");
}

#[test]
fn precedence() {
    assert_eq!(evaluate("1+1*10"), Ok(11));
    assert_eq!(evaluate("1+0*10-5"), Ok(-4));
    assert_eq!(evaluate("2*3+4*5"), Ok(26));
    assert_eq!(evaluate("20-12/4"), Ok(17));
    assert_eq!(evaluate_complete("1+1*10"), Ok(11));
    assert_eq!(evaluate_complete("1+0*10-5"), Ok(-4));
}

#[test]
fn left_associativity() {
    assert_eq!(evaluate("123+456-1+11-2+34"), Ok(621));
    assert_eq!(evaluate("10-4-3"), Ok(3));
    assert_eq!(evaluate("100/10/5"), Ok(2));
    assert_eq!(evaluate("100/10*5"), Ok(50));
    assert_eq!(evaluate("7/2*2"), Ok(6));
    assert_eq!(evaluate_complete("123+456-1+11-2+34"), Ok(621));
}

#[test]
fn whitespace_insensitivity() {
    assert_eq!(evaluate("9 -7"), Ok(2));
    assert_eq!(evaluate("9-7"), Ok(2));
    assert_eq!(evaluate("9   -            7"), Ok(2));
    assert_eq!(evaluate("   9-7"), Ok(2));
    assert_eq!(evaluate("9-7   "), Ok(2));
    assert_eq!(evaluate_complete(" 9 - 7 "), Ok(2));
}

#[test]
fn division_and_multiplication() {
    assert_eq!(evaluate("4/2"), Ok(2));
    assert_eq!(evaluate("400/3"), Ok(133));
    assert_eq!(evaluate("7/2"), Ok(3));
    assert_eq!(evaluate("0/5"), Ok(0));
    assert_eq!(evaluate("6*7"), Ok(42));
    assert_eq!(evaluate("0-7/2"), Ok(-3));
}

#[test]
fn single_integer() {
    assert_eq!(evaluate("0"), Ok(0));
    assert_eq!(evaluate("  15  "), Ok(15));
    assert_eq!(evaluate_complete("  15  "), Ok(15));
    assert_eq!(evaluate("9223372036854775807"), Ok(i64::MAX));
}

#[test]
fn illegal_character() {
    assert_eq!(evaluate("1&2"), Err(EvalError { kind: ErrorKind::Lexical('&'), offset: 1 }));
    assert_eq!(
        evaluate_complete("1&2"),
        Err(EvalError { kind: ErrorKind::Lexical('&'), offset: 1 })
    );
    assert_eq!(evaluate("1 + a"), Err(EvalError { kind: ErrorKind::Lexical('a'), offset: 4 }));
    assert_eq!(evaluate("1+2)"), Err(EvalError { kind: ErrorKind::Lexical(')'), offset: 3 }));
    assert_eq!(evaluate("(1+2)"), Err(EvalError { kind: ErrorKind::Lexical('('), offset: 0 }));
    assert_eq!(evaluate("1.5"), Err(EvalError { kind: ErrorKind::Lexical('.'), offset: 1 }));
}

#[test]
fn division_by_zero_fails() {
    assert_eq!(evaluate("5/0"), Err(division_by_zero(3)));
    assert_eq!(evaluate_complete("5/0"), Err(division_by_zero(3)));
    assert_eq!(evaluate("1+5 / 000 +2"), Err(division_by_zero(9)));
    assert_eq!(evaluate("0/0"), Err(division_by_zero(3)));
    let mut source = Source::new(String::from("5/0"));
    assert_eq!(term(&mut source), Err(division_by_zero(3)));
    assert_eq!(source.index, 3);
}

#[test]
fn operand_missing() {
    assert_eq!(evaluate(""), Err(grammar(TokenValue::Eof, 0)));
    assert_eq!(evaluate("    "), Err(grammar(TokenValue::Eof, 4)));
    assert_eq!(evaluate("1+"), Err(grammar(TokenValue::Eof, 2)));
    assert_eq!(evaluate("1 *  "), Err(grammar(TokenValue::Eof, 5)));
    assert_eq!(evaluate("+1"), Err(grammar(TokenValue::Plus, 1)));
    assert_eq!(evaluate("-1"), Err(grammar(TokenValue::Minus, 1)));
    assert_eq!(evaluate("1+*2"), Err(grammar(TokenValue::Mult, 3)));
    assert_eq!(evaluate("1/ /2"), Err(grammar(TokenValue::Div, 4)));
    assert_eq!(evaluate_complete("1+"), Err(grammar(TokenValue::Eof, 2)));
}

#[test]
fn factor_takes_one_integer() {
    let mut source = Source::new(String::from("  31*2"));
    assert_eq!(factor(&mut source), Ok(31));
    assert_eq!(source.index, 4);

    let mut source = Source::new(String::from(" *2"));
    assert_eq!(factor(&mut source), Err(grammar(TokenValue::Mult, 2)));
    assert_eq!(source.index, 2);

    let mut source = Source::new(String::from(""));
    assert_eq!(factor(&mut source), Err(grammar(TokenValue::Eof, 0)));
    assert_eq!(source.index, 0);

    let mut source = Source::new(String::from(" ?"));
    assert_eq!(factor(&mut source), Err(EvalError { kind: ErrorKind::Lexical('?'), offset: 1 }));
    assert_eq!(source.index, 1);
}

#[test]
fn term_stops_in_front_of_the_token_that_ends_it() {
    let mut source = Source::new(String::from("2*3 + 4"));
    assert_eq!(term(&mut source), Ok(6));
    assert_eq!(source.index, 3);
    let token = get_next_token(&mut source).unwrap();
    assert_eq!(token.value, TokenValue::Plus);
    assert_eq!(source.index, 5);
}

#[test]
fn expression_stops_in_front_of_the_token_that_ends_it() {
    let mut source = Source::new(String::from("1+2  3"));
    assert_eq!(expr(&mut source), Ok(3));
    assert_eq!(source.index, 3);
    let token = get_next_token(&mut source).unwrap();
    assert_eq!(token.value, TokenValue::Integer(3));
    assert_eq!(source.index, 6);

    let mut source = Source::new(String::from("1+2  "));
    assert_eq!(expr(&mut source), Ok(3));
    assert_eq!(source.index, 3);
    let token = get_next_token(&mut source).unwrap();
    assert_eq!(token.value, TokenValue::Eof);
    assert_eq!(source.index, 5);
}

#[test]
fn input_behind_the_expression() {
    assert_eq!(evaluate("1+2 3"), Ok(3));
    assert_eq!(evaluate_complete("1+2 3"), Err(grammar(TokenValue::Integer(3), 5)));
    assert_eq!(evaluate("4 5 6"), Ok(4));
    assert_eq!(evaluate_complete("4 5 6"), Err(grammar(TokenValue::Integer(5), 3)));
}

#[test]
fn expression_from_the_middle_of_a_text() {
    let mut source = Source::new(String::from("99 1+2"));
    source.index = 2;
    assert_eq!(expr(&mut source), Ok(3));
    assert_eq!(source.index, 6);

    let mut source = Source::new(String::from("1+2"));
    source.index = 7;
    assert_eq!(expr(&mut source), Err(grammar(TokenValue::Eof, 7)));
    assert_eq!(source.index, 7);
}

#[test]
fn literal_above_the_range() {
    assert_eq!(
        evaluate("9223372036854775808"),
        Err(EvalError { kind: ErrorKind::IntegerOverflow, offset: 19 })
    );
    assert_eq!(
        evaluate("1 + 9223372036854775808 + 2"),
        Err(EvalError { kind: ErrorKind::IntegerOverflow, offset: 23 })
    );
    assert_eq!(
        evaluate("99999999999999999999*0"),
        Err(EvalError { kind: ErrorKind::IntegerOverflow, offset: 20 })
    );
}

#[test]
fn result_outside_the_range() {
    assert_eq!(evaluate("9223372036854775807+0"), Ok(i64::MAX));
    assert_eq!(evaluate("9223372036854775807+1"), Err(overflow(21)));
    assert_eq!(evaluate("0-9223372036854775807-1"), Ok(i64::MIN));
    assert_eq!(evaluate("0-9223372036854775807-2"), Err(overflow(23)));
    assert_eq!(evaluate("3037000499*3037000499"), Ok(9223372030926249001));
    assert_eq!(evaluate("3037000500*3037000500"), Err(overflow(21)));
    assert_eq!(evaluate("4611686018427387904 * 2 - 1"), Err(overflow(23)));
    assert_eq!(evaluate("1-4611686018427387904*2"), Err(overflow(23)));
    assert_eq!(evaluate_complete("9223372036854775807+1"), Err(overflow(21)));
}

#[test]
fn failure_leaves_the_cursor_at_its_offset() {
    let mut source = Source::new(String::from("1+2*x"));
    assert_eq!(expr(&mut source), Err(EvalError { kind: ErrorKind::Lexical('x'), offset: 4 }));
    assert_eq!(source.index, 4);

    let mut source = Source::new(String::from("8/0 +1"));
    assert_eq!(expr(&mut source), Err(division_by_zero(3)));
    assert_eq!(source.index, 3);

    let mut source = Source::new(String::from("8+ +1"));
    assert_eq!(expr(&mut source), Err(grammar(TokenValue::Plus, 4)));
    assert_eq!(source.index, 4);
}
