use pratt_calc::lexer::{lex, Lexer, Token};

#[test]
fn lex_empty_parens() {
    let tokens = lex(&"()".to_owned());
    assert_eq!(tokens, vec![Token::LParen, Token::RParen]);
}

#[test]
fn lex_simple_tokens() {
    let tokens = lex(&"*/+-".to_owned());
    assert_eq!(
        tokens,
        vec![Token::Times, Token::Divide, Token::Plus, Token::Minus]
    );
}

#[test]
fn lex_integer() {
    let tokens: Vec<Token> = lex(&"100".to_owned());
    assert_eq!(tokens, vec![Token::Integer(100)]);
}

#[test]
fn lex_math_expression() {
    let tokens = lex(&"(100 + 2) - (-4)".to_owned());
    assert_eq!(
        tokens,
        vec![
            Token::LParen,
            Token::Integer(100),
            Token::Plus,
            Token::Integer(2),
            Token::RParen,
            Token::Minus,
            Token::LParen,
            Token::Minus,
            Token::Integer(4),
            Token::RParen
        ]
    );
}

#[test]
fn lex_empty_text() {
    assert_eq!(lex(&String::new()), vec![]);
    assert_eq!(lex(&"    ".to_owned()), vec![]);
}

#[test]
fn lex_power_token() {
    assert_eq!(
        lex(&"2^10".to_owned()),
        vec![Token::Integer(2), Token::Pow, Token::Integer(10)]
    );
}

#[test]
fn lex_adjacent_integers_are_split_by_spaces() {
    assert_eq!(
        lex(&"12  34".to_owned()),
        vec![Token::Integer(12), Token::Integer(34)]
    );
}

#[test]
fn lex_leading_zeros() {
    assert_eq!(lex(&"007".to_owned()), vec![Token::Integer(7)]);
}

#[test]
fn lex_stops_at_unknown_character() {
    assert_eq!(
        lex(&"1 + a 2".to_owned()),
        vec![Token::Integer(1), Token::Plus]
    );
    assert_eq!(lex(&"12x".to_owned()), vec![Token::Integer(12)]);
    assert_eq!(lex(&"x12".to_owned()), vec![]);
}

#[test]
fn lex_tab_and_newline_are_unknown() {
    assert_eq!(lex(&"1\t+ 2".to_owned()), vec![Token::Integer(1)]);
    assert_eq!(lex(&"1 +\n2".to_owned()), vec![Token::Integer(1), Token::Plus]);
}

#[test]
fn lex_stops_at_non_ascii() {
    assert_eq!(lex(&"3 \u{00d7} 4".to_owned()), vec![Token::Integer(3)]);
    assert_eq!(lex(&"\u{0663}".to_owned()), vec![]);
}

#[test]
fn lex_largest_integer_is_exact() {
    assert_eq!(
        lex(&"9223372036854775807".to_owned()),
        vec![Token::Integer(i64::MAX)]
    );
}

#[test]
fn lex_integer_wraps_around() {
    assert_eq!(
        lex(&"9223372036854775808".to_owned()),
        vec![Token::Integer(i64::MIN)]
    );
    assert_eq!(
        lex(&"18446744073709551616".to_owned()),
        vec![Token::Integer(0)]
    );
    assert_eq!(
        lex(&"18446744073709551621".to_owned()),
        vec![Token::Integer(5)]
    );
}

#[test]
fn lexer_hands_out_tokens_one_by_one() {
    let text = " 7 *( x".to_owned();
    let mut lexer = Lexer::new(&text);
    assert_eq!(lexer.next(), Some(Token::Integer(7)));
    assert_eq!(lexer.next(), Some(Token::Times));
    assert_eq!(lexer.next(), Some(Token::LParen));
    assert_eq!(lexer.next(), None);
    assert_eq!(lexer.next(), None);
}

#[test]
fn lex_is_total_over_the_alphabet() {
    let text = "0123456789 ()+-*/^".to_owned();
    assert_eq!(
        lex(&text),
        vec![
            Token::Integer(123456789),
            Token::LParen,
            Token::RParen,
            Token::Plus,
            Token::Minus,
            Token::Times,
            Token::Divide,
            Token::Pow
        ]
    );
}
