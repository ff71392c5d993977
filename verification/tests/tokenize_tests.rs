use tokenizer::IntegerParseError;
use tokenizer::Token;
use tokenizer::TokenizeError;
use tokenizer::str_to_fromstr;
use tokenizer::tokenize;

#[test]
fn operator_test() {
    let tokens = tokenize("66+34").unwrap();
    assert_eq!(
        tokens,
        vec![
            Token::IntegerLiteral(66),
            Token::Operator("+".to_string()),
            Token::IntegerLiteral(34),
            Token::EOF
        ]
    );

    let tokens = tokenize(r#"def add(x: Int, y: Int) = x + y"#).unwrap();
    assert_eq!(
        tokens,
        vec![
            Token::operator("def"),
            Token::identifier("add"),
            Token::operator("("),
            Token::identifier("x"),
            Token::operator(":"),
            Token::identifier("Int"),
            Token::operator(","),
            Token::identifier("y"),
            Token::operator(":"),
            Token::identifier("Int"),
            Token::operator(")"),
            Token::operator("="),
            Token::identifier("x"),
            Token::operator("+"),
            Token::identifier("y"),
            Token::EOF
        ]
    );
}

#[test]
fn strto_test() {
    assert_eq!(str_to_fromstr("34"), Ok((34, 2)));
    assert_eq!(str_to_fromstr("123"), Ok((123, 3)));
    assert_eq!(str_to_fromstr("123あいう"), Ok((123, 3)));
    assert!(str_to_fromstr("あbc").is_err());
    assert!(str_to_fromstr("").is_err());
}

#[test]
fn two_char_operators_take_longest_match() {
    let tokens = tokenize("<=").unwrap();
    assert_eq!(tokens, vec![Token::operator("<="), Token::EOF]);

    let tokens = tokenize(">=").unwrap();
    assert_eq!(tokens, vec![Token::operator(">="), Token::EOF]);

    let tokens = tokenize("<|").unwrap();
    assert_eq!(tokens, vec![Token::operator("<|"), Token::EOF]);

    let tokens = tokenize("<").unwrap();
    assert_eq!(tokens, vec![Token::operator("<"), Token::EOF]);
}

#[test]
fn keyword_wins_over_identifier() {
    let tokens = tokenize("let").unwrap();
    assert_eq!(tokens, vec![Token::operator("let"), Token::EOF]);

    let tokens = tokenize("if").unwrap();
    assert_eq!(tokens, vec![Token::operator("if"), Token::EOF]);
}

#[test]
fn keyword_matches_as_bare_prefix() {
    // The keyword recognizer does no word-boundary check: a keyword that
    // prefixes a longer word wins, and the word's tail is scanned afresh.
    let tokens = tokenize("ifx").unwrap();
    assert_eq!(tokens, vec![Token::operator("if"), Token::identifier("x"), Token::EOF]);
}

#[test]
fn digit_run_then_identifier() {
    let tokens = tokenize("123abc").unwrap();
    assert_eq!(
        tokens,
        vec![Token::IntegerLiteral(123), Token::identifier("abc"), Token::EOF]
    );
}

#[test]
fn unicode_tail_after_digits() {
    let tokens = tokenize("123あいう").unwrap();
    assert_eq!(
        tokens,
        vec![Token::IntegerLiteral(123), Token::identifier("あいう"), Token::EOF]
    );
}

#[test]
fn unknown_symbol_fails() {
    let err = tokenize("@").unwrap_err();
    assert_eq!(
        err,
        TokenizeError::UnrecognizedSymbol { position: 0, remainder: "@".to_string() }
    );
}

#[test]
fn unknown_symbol_position_and_remainder() {
    let err = tokenize("66+@x").unwrap_err();
    assert_eq!(
        err,
        TokenizeError::UnrecognizedSymbol { position: 3, remainder: "@x".to_string() }
    );
}

#[test]
fn tab_and_newline_are_not_whitespace() {
    assert!(tokenize("\t").is_err());
    assert!(tokenize("66\n34").is_err());
}

#[test]
fn trailing_space_fails() {
    let err = tokenize("66 ").unwrap_err();
    assert_eq!(
        err,
        TokenizeError::UnrecognizedSymbol { position: 3, remainder: "".to_string() }
    );
}

#[test]
fn spaces_between_tokens_are_skipped() {
    let tokens = tokenize("66 + 34").unwrap();
    assert_eq!(
        tokens,
        vec![
            Token::IntegerLiteral(66),
            Token::operator("+"),
            Token::IntegerLiteral(34),
            Token::EOF
        ]
    );

    let tokens = tokenize("  66").unwrap();
    assert_eq!(tokens, vec![Token::IntegerLiteral(66), Token::EOF]);
}

#[test]
fn empty_input_yields_only_the_marker() {
    let tokens = tokenize("").unwrap();
    assert_eq!(tokens, vec![Token::EOF]);
}

#[test]
fn leading_zeros_parse_by_value() {
    let tokens = tokenize("007").unwrap();
    assert_eq!(tokens, vec![Token::IntegerLiteral(7), Token::EOF]);
}

#[test]
fn integer_overflow_is_no_match_and_fails_the_scan() {
    assert_eq!(str_to_fromstr("4294967295"), Ok((4294967295, 10)));
    assert_eq!(str_to_fromstr("4294967296"), Err(IntegerParseError::Overflow));

    let err = tokenize("4294967296").unwrap_err();
    assert_eq!(
        err,
        TokenizeError::UnrecognizedSymbol { position: 0, remainder: "4294967296".to_string() }
    );

    let tokens = tokenize("4294967295").unwrap();
    assert_eq!(tokens, vec![Token::IntegerLiteral(4294967295), Token::EOF]);
}

#[test]
fn empty_digit_run_is_no_digits() {
    assert_eq!(str_to_fromstr("abc"), Err(IntegerParseError::NoDigits));
    assert_eq!(str_to_fromstr(""), Err(IntegerParseError::NoDigits));
}

#[test]
fn every_success_ends_with_one_marker() {
    for input in ["", "66+34", "let", "<=", "a b c", "007"] {
        let tokens = tokenize(input).unwrap();
        assert_eq!(tokens.last(), Some(&Token::EOF));
        let markers = tokens.iter().filter(|t| **t == Token::EOF).count();
        assert_eq!(markers, 1);
    }
}
