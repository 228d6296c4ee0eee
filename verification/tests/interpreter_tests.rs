use pratt_calc::error::Error;
use pratt_calc::interpreter::interpret;
use pratt_calc::parser::{parse_and_lex, BinaryOp, Expr, UnaryOp};

fn lit(n: i64) -> Box<Expr> {
    Box::new(Expr::Literal(n))
}

fn binary(l: i64, op: BinaryOp, r: i64) -> Expr {
    Expr::Binary(lit(l), op, lit(r))
}

fn run(text: &str) -> Result<i64, Error> {
    match parse_and_lex(&text.to_owned()) {
        Ok(ast) => interpret(&ast),
        Err(e) => Err(e),
    }
}

#[test]
fn eval_literal() {
    let result = interpret(&Expr::Literal(2));
    assert_eq!(result, Ok(2))
}

#[test]
fn eval_simple() {
    let result = interpret(&Expr::Binary(
        Box::new(Expr::Binary(
            Box::new(Expr::Literal(3)),
            BinaryOp::Mul,
            Box::new(Expr::Binary(
                Box::new(Expr::Binary(
                    Box::new(Expr::Literal(2)),
                    BinaryOp::Add,
                    Box::new(Expr::Unary(UnaryOp::Neg, Box::new(Expr::Literal(4)))),
                )),
                BinaryOp::Pow,
                Box::new(Expr::Literal(4)),
            )),
        )),
        BinaryOp::Div,
        Box::new(Expr::Literal(2)),
    ));
    assert_eq!(result, Ok(24))
}

#[test]
fn eval_text() {
    assert_eq!(run("3 * (2 + -4) ^ 4 / 2"), Ok(24));
    assert_eq!(run("(100 + 2) - (-4)"), Ok(106));
    assert_eq!(run("2 ^ 3 ^ 2"), Ok(512));
    assert_eq!(run("8 - 3 - 2"), Ok(3));
    assert_eq!(run("-2 ^ 2"), Ok(4));
    assert_eq!(run("1 + 2 * 3"), Ok(7));
}

#[test]
fn eval_each_operator() {
    assert_eq!(interpret(&binary(7, BinaryOp::Add, 5)), Ok(12));
    assert_eq!(interpret(&binary(7, BinaryOp::Sub, 5)), Ok(2));
    assert_eq!(interpret(&binary(7, BinaryOp::Mul, 5)), Ok(35));
    assert_eq!(interpret(&binary(7, BinaryOp::Div, 5)), Ok(1));
    assert_eq!(interpret(&binary(7, BinaryOp::Pow, 5)), Ok(16807));
    assert_eq!(interpret(&Expr::Unary(UnaryOp::Neg, lit(7))), Ok(-7));
    assert_eq!(interpret(&Expr::Unary(UnaryOp::Neg, lit(-7))), Ok(7));
}

#[test]
fn division_rounds_toward_zero() {
    assert_eq!(interpret(&binary(7, BinaryOp::Div, 2)), Ok(3));
    assert_eq!(interpret(&binary(-7, BinaryOp::Div, 2)), Ok(-3));
    assert_eq!(interpret(&binary(7, BinaryOp::Div, -2)), Ok(-3));
    assert_eq!(interpret(&binary(-7, BinaryOp::Div, -2)), Ok(3));
    assert_eq!(interpret(&binary(0, BinaryOp::Div, -2)), Ok(0));
}

#[test]
fn division_by_zero_fails() {
    assert_eq!(
        interpret(&binary(1, BinaryOp::Div, 0)),
        Err(Error::DivisionByZero)
    );
    assert_eq!(
        interpret(&binary(0, BinaryOp::Div, 0)),
        Err(Error::DivisionByZero)
    );
    assert_eq!(run("1 / (2 - 2)"), Err(Error::DivisionByZero));
}

#[test]
fn negative_exponent_fails() {
    assert_eq!(
        interpret(&binary(2, BinaryOp::Pow, -1)),
        Err(Error::NegativeExponent)
    );
    assert_eq!(
        interpret(&binary(1, BinaryOp::Pow, i64::MIN)),
        Err(Error::NegativeExponent)
    );
    assert_eq!(run("2 ^ -1"), Err(Error::NegativeExponent));
}

#[test]
fn power_edge_cases() {
    assert_eq!(interpret(&binary(0, BinaryOp::Pow, 0)), Ok(1));
    assert_eq!(interpret(&binary(0, BinaryOp::Pow, 3)), Ok(0));
    assert_eq!(interpret(&binary(5, BinaryOp::Pow, 0)), Ok(1));
    assert_eq!(interpret(&binary(5, BinaryOp::Pow, 1)), Ok(5));
    assert_eq!(interpret(&binary(-3, BinaryOp::Pow, 3)), Ok(-27));
    assert_eq!(interpret(&binary(2, BinaryOp::Pow, 62)), Ok(1i64 << 62));
    assert_eq!(interpret(&binary(-2, BinaryOp::Pow, 63)), Ok(i64::MIN));
}

#[test]
fn power_with_a_huge_exponent() {
    assert_eq!(interpret(&binary(1, BinaryOp::Pow, i64::MAX)), Ok(1));
    assert_eq!(interpret(&binary(0, BinaryOp::Pow, i64::MAX)), Ok(0));
    assert_eq!(interpret(&binary(-1, BinaryOp::Pow, i64::MAX)), Ok(-1));
    assert_eq!(interpret(&binary(-1, BinaryOp::Pow, i64::MAX - 1)), Ok(1));
    assert_eq!(
        interpret(&binary(2, BinaryOp::Pow, i64::MAX)),
        Err(Error::Overflow)
    );
    assert_eq!(
        interpret(&binary(2, BinaryOp::Pow, 4294967296)),
        Err(Error::Overflow)
    );
}

#[test]
fn overflow_fails() {
    assert_eq!(
        interpret(&binary(i64::MAX, BinaryOp::Add, 1)),
        Err(Error::Overflow)
    );
    assert_eq!(
        interpret(&binary(i64::MIN, BinaryOp::Sub, 1)),
        Err(Error::Overflow)
    );
    assert_eq!(
        interpret(&binary(i64::MAX, BinaryOp::Mul, 2)),
        Err(Error::Overflow)
    );
    assert_eq!(
        interpret(&binary(i64::MIN, BinaryOp::Div, -1)),
        Err(Error::Overflow)
    );
    assert_eq!(
        interpret(&binary(2, BinaryOp::Pow, 63)),
        Err(Error::Overflow)
    );
    assert_eq!(
        interpret(&binary(-2, BinaryOp::Pow, 64)),
        Err(Error::Overflow)
    );
    assert_eq!(
        interpret(&Expr::Unary(UnaryOp::Neg, lit(i64::MIN))),
        Err(Error::Overflow)
    );
    assert_eq!(interpret(&binary(i64::MAX, BinaryOp::Add, 0)), Ok(i64::MAX));
    assert_eq!(
        interpret(&Expr::Unary(UnaryOp::Neg, lit(i64::MAX))),
        Ok(-i64::MAX)
    );
}

#[test]
fn left_operand_fails_first() {
    let left = binary(1, BinaryOp::Div, 0);
    let right = binary(2, BinaryOp::Pow, -1);
    assert_eq!(
        interpret(&Expr::Binary(Box::new(left), BinaryOp::Add, Box::new(right))),
        Err(Error::DivisionByZero)
    );
    let left = binary(2, BinaryOp::Pow, -1);
    let right = binary(1, BinaryOp::Div, 0);
    assert_eq!(
        interpret(&Expr::Binary(Box::new(left), BinaryOp::Add, Box::new(right))),
        Err(Error::NegativeExponent)
    );
}

#[test]
fn interpreting_twice_gives_the_same_value() {
    let ast = parse_and_lex(&"3 * (2 + -4) ^ 4 / 2".to_owned()).unwrap();
    let first = interpret(&ast);
    let second = interpret(&ast);
    assert_eq!(first, Ok(24));
    assert_eq!(first, second);
    let failing = binary(1, BinaryOp::Div, 0);
    assert_eq!(interpret(&failing), interpret(&failing));
}

#[test]
fn error_messages() {
    assert_eq!(Error::UnbalancedParens.message(), "unbalanced parens");
    assert_eq!(Error::ExpectingLiteral.message(), "expecting literal");
    assert_eq!(Error::ExpectingOperator.message(), "expecting operator");
    assert_eq!(Error::IncompleteInput.message(), "incomplete");
    assert_eq!(
        Error::TrailingInput.message(),
        "input has not fully been consumed"
    );
    assert_eq!(Error::DivisionByZero.message(), "cannot divide by zero");
    assert_eq!(
        Error::NegativeExponent.message(),
        "cannot raise number to negative power"
    );
    assert_eq!(Error::Overflow.message(), "integer overflow");
}
