use pratt_calc::error::Error;
use pratt_calc::lexer::Token;
use pratt_calc::parser::{parse, parse_and_lex, token_to_binop, BinaryOp, Expr, Parser, UnaryOp};

fn lit(n: i64) -> Box<Expr> {
    Box::new(Expr::Literal(n))
}

#[test]
fn parse_literal_expr() {
    let ast = parse_and_lex(&"2".to_owned());
    assert_eq!(ast, Ok(Expr::Literal(2)))
}

#[test]
fn parse_addition_expr() {
    let ast = parse_and_lex(&"2 + 1".to_owned());
    assert_eq!(
        ast,
        Ok(Expr::Binary(
            Box::new(Expr::Literal(2)),
            BinaryOp::Add,
            Box::new(Expr::Literal(1))
        ))
    )
}

#[test]
fn parse_paren() {
    let ast = parse_and_lex(&"(1)".to_owned());
    assert_eq!(ast, Ok(Expr::Literal(1)))
}

#[test]
fn basic_precedence() {
    let ast = parse_and_lex(&"1 + 2 * 3".to_owned());
    assert_eq!(
        ast,
        Ok(Expr::Binary(
            Box::new(Expr::Literal(1)),
            BinaryOp::Add,
            Box::new(Expr::Binary(
                Box::new(Expr::Literal(2)),
                BinaryOp::Mul,
                Box::new(Expr::Literal(3))
            ))
        ))
    )
}

#[test]
fn parse_tokens_directly() {
    let tokens = vec![Token::Integer(6), Token::Divide, Token::Integer(3)];
    assert_eq!(
        parse(&tokens),
        Ok(Expr::Binary(lit(6), BinaryOp::Div, lit(3)))
    );
}

#[test]
fn subtraction_associates_to_the_left() {
    assert_eq!(
        parse_and_lex(&"8 - 3 - 2".to_owned()),
        Ok(Expr::Binary(
            Box::new(Expr::Binary(lit(8), BinaryOp::Sub, lit(3))),
            BinaryOp::Sub,
            lit(2)
        ))
    );
}

#[test]
fn power_associates_to_the_right() {
    assert_eq!(
        parse_and_lex(&"2 ^ 3 ^ 2".to_owned()),
        Ok(Expr::Binary(
            lit(2),
            BinaryOp::Pow,
            Box::new(Expr::Binary(lit(3), BinaryOp::Pow, lit(2)))
        ))
    );
}

#[test]
fn power_binds_tighter_than_product() {
    assert_eq!(
        parse_and_lex(&"2 * 3 ^ 2".to_owned()),
        Ok(Expr::Binary(
            lit(2),
            BinaryOp::Mul,
            Box::new(Expr::Binary(lit(3), BinaryOp::Pow, lit(2)))
        ))
    );
}

#[test]
fn prefix_minus_binds_tighter_than_power() {
    assert_eq!(
        parse_and_lex(&"-2 ^ 2".to_owned()),
        Ok(Expr::Binary(
            Box::new(Expr::Unary(UnaryOp::Neg, lit(2))),
            BinaryOp::Pow,
            lit(2)
        ))
    );
}

#[test]
fn prefix_minus_nests() {
    assert_eq!(
        parse_and_lex(&"--5".to_owned()),
        Ok(Expr::Unary(
            UnaryOp::Neg,
            Box::new(Expr::Unary(UnaryOp::Neg, lit(5)))
        ))
    );
}

#[test]
fn parens_override_precedence() {
    assert_eq!(
        parse_and_lex(&"(1 + 2) * 3".to_owned()),
        Ok(Expr::Binary(
            Box::new(Expr::Binary(lit(1), BinaryOp::Add, lit(2))),
            BinaryOp::Mul,
            lit(3)
        ))
    );
}

#[test]
fn trailing_input_is_refused() {
    assert_eq!(parse_and_lex(&"2 2".to_owned()), Err(Error::TrailingInput));
    assert_eq!(parse_and_lex(&"(1) 2".to_owned()), Err(Error::TrailingInput));
    assert_eq!(parse_and_lex(&"1 )".to_owned()), Err(Error::TrailingInput));
    assert_eq!(parse_and_lex(&"1 (".to_owned()), Err(Error::TrailingInput));
}

#[test]
fn unbalanced_parens_are_refused() {
    assert_eq!(parse_and_lex(&"(1".to_owned()), Err(Error::UnbalancedParens));
    assert_eq!(
        parse_and_lex(&"(1 + 2".to_owned()),
        Err(Error::UnbalancedParens)
    );
    assert_eq!(
        parse_and_lex(&"(1 2)".to_owned()),
        Err(Error::UnbalancedParens)
    );
}

#[test]
fn a_token_that_starts_no_expression_is_refused() {
    assert_eq!(parse_and_lex(&")".to_owned()), Err(Error::ExpectingLiteral));
    assert_eq!(parse_and_lex(&"* 2".to_owned()), Err(Error::ExpectingLiteral));
    assert_eq!(
        parse_and_lex(&"1 + * 2".to_owned()),
        Err(Error::ExpectingLiteral)
    );
    assert_eq!(parse_and_lex(&"()".to_owned()), Err(Error::ExpectingLiteral));
}

#[test]
fn the_first_failure_is_reported() {
    assert_eq!(parse_and_lex(&") 1".to_owned()), Err(Error::ExpectingLiteral));
}

#[test]
fn incomplete_input_is_refused() {
    assert_eq!(parse_and_lex(&"".to_owned()), Err(Error::IncompleteInput));
    assert_eq!(parse_and_lex(&"1 +".to_owned()), Err(Error::IncompleteInput));
    assert_eq!(parse_and_lex(&"-".to_owned()), Err(Error::IncompleteInput));
    assert_eq!(parse_and_lex(&"(".to_owned()), Err(Error::IncompleteInput));
    assert_eq!(parse(&vec![]), Err(Error::IncompleteInput));
}

#[test]
fn text_after_an_unknown_character_is_dropped() {
    assert_eq!(parse_and_lex(&"2 ? 3".to_owned()), Ok(Expr::Literal(2)));
}

#[test]
fn parser_reads_one_expression() {
    let tokens = vec![
        Token::Integer(1),
        Token::Plus,
        Token::Integer(2),
        Token::RParen,
        Token::Integer(9),
    ];
    let mut parser = Parser::new(&tokens);
    assert_eq!(
        parser.parse_expr(),
        Ok(Expr::Binary(lit(1), BinaryOp::Add, lit(2)))
    );
    assert_eq!(parser.parse_expr(), Err(Error::ExpectingLiteral));
    assert_eq!(parser.parse_expr(), Ok(Expr::Literal(9)));
    assert_eq!(parser.parse_expr(), Err(Error::IncompleteInput));
}

#[test]
fn tokens_and_their_operators() {
    assert_eq!(token_to_binop(Token::Pow), Ok(BinaryOp::Pow));
    assert_eq!(token_to_binop(Token::Times), Ok(BinaryOp::Mul));
    assert_eq!(token_to_binop(Token::Divide), Ok(BinaryOp::Div));
    assert_eq!(token_to_binop(Token::Plus), Ok(BinaryOp::Add));
    assert_eq!(token_to_binop(Token::Minus), Ok(BinaryOp::Sub));
    assert_eq!(token_to_binop(Token::LParen), Err(Error::ExpectingOperator));
    assert_eq!(token_to_binop(Token::RParen), Err(Error::ExpectingOperator));
    assert_eq!(
        token_to_binop(Token::Integer(3)),
        Err(Error::ExpectingOperator)
    );
}
