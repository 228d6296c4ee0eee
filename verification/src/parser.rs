//! The parser: builds the tree of an expression from its tokens by
//! precedence climbing.

use vstd::prelude::*;
use crate::error::Error;
use crate::lexer::{Token, lex, lex_spec};

verus! {

/// An arithmetic expression as a tree. Every node owns its operands.
#[derive(Debug, PartialEq)]
pub enum Expr {
    Unary(UnaryOp, Box<Expr>),
    Binary(Box<Expr>, BinaryOp, Box<Expr>),
    Literal(i64),
}

/// The prefix operators.
#[derive(Debug, PartialEq, Eq, Structural, Clone, Copy)]
pub enum UnaryOp {
    Neg,
}

/// The infix operators.
#[derive(Debug, PartialEq, Eq, Structural, Clone, Copy)]
pub enum BinaryOp {
    Pow,
    Mul,
    Div,
    Add,
    Sub,
}

/// The outcome of one parsing step together with the position that the step
/// has reached in the tokens.
pub type Step = (Result<Expr, Error>, int);

/// The binding power with which a prefix minus takes its operand: higher
/// than that of any infix operator.
pub const PREFIX_POWER: u32 = 100;

/// The infix operator that a token stands for.
pub open spec fn binop_of(t: Token) -> Result<BinaryOp, Error> {
    match t {
        Token::Pow => Ok(BinaryOp::Pow),
        Token::Times => Ok(BinaryOp::Mul),
        Token::Divide => Ok(BinaryOp::Div),
        Token::Plus => Ok(BinaryOp::Add),
        Token::Minus => Ok(BinaryOp::Sub),
        _ => Err(Error::ExpectingOperator),
    }
}

/// How strongly a token binds the operand on its left. A token that is no
/// infix operator does not bind at all.
pub open spec fn binding_power(t: Token) -> int {
    match t {
        Token::Pow => 30,
        Token::Times | Token::Divide => 20,
        Token::Plus | Token::Minus => 10,
        _ => 0,
    }
}

/// The binding power at which an infix operator reads its right operand:
/// its own for the operators that associate to the left, one less for
/// exponentiation, which associates to the right.
pub open spec fn right_power(t: Token) -> int {
    match t {
        Token::Pow => binding_power(t) - 1,
        _ => binding_power(t),
    }
}

/// The expression that starts at `pos` and extends over every operator that
/// binds more strongly than `rbp`.
pub open spec fn expression_at(ts: Seq<Token>, pos: int, rbp: int) -> Step
    decreases ts.len() - pos, 2int,
{
    let (first, p) = nud_step(ts, pos);
    match first {
        Ok(left) => if pos < p <= ts.len() {
            fold_from(ts, left, p, rbp)
        } else {
            (Err(Error::IncompleteInput), p)
        },
        Err(x) => (Err(x), p),
    }
}

/// The term that starts with the token at `pos`.
pub open spec fn nud_step(ts: Seq<Token>, pos: int) -> Step
    decreases ts.len() - pos, 0int,
{
    if 0 <= pos < ts.len() {
        nud_of(ts[pos], ts, pos + 1)
    } else {
        (Err(Error::IncompleteInput), pos)
    }
}

/// The term that the token `t` starts, where `pos` is the position after it.
pub open spec fn nud_of(t: Token, ts: Seq<Token>, pos: int) -> Step
    decreases ts.len() - pos, 3int,
{
    match t {
        Token::Integer(n) => (Ok(Expr::Literal(n)), pos),
        Token::Minus => {
            let (inner, p) = expression_at(ts, pos, PREFIX_POWER as int);
            match inner {
                Ok(e) => (Ok(Expr::Unary(UnaryOp::Neg, Box::new(e))), p),
                Err(x) => (Err(x), p),
            }
        },
        Token::LParen => {
            let (inner, p) = expression_at(ts, pos, 0);
            match inner {
                Ok(e) => if 0 <= p < ts.len() {
                    if ts[p] == Token::RParen {
                        (Ok(e), p + 1)
                    } else {
                        (Err(Error::UnbalancedParens), p + 1)
                    }
                } else {
                    (Err(Error::UnbalancedParens), p)
                },
                Err(x) => (Err(x), p),
            }
        },
        _ => (Err(Error::ExpectingLiteral), pos),
    }
}

/// The expression that the token at `pos` makes of `left` and of what
/// follows the token.
pub open spec fn led_step(ts: Seq<Token>, left: Expr, pos: int) -> Step
    decreases ts.len() - pos, 0int,
{
    if 0 <= pos < ts.len() {
        led_of(ts[pos], ts, left, pos + 1)
    } else {
        (Err(Error::IncompleteInput), pos)
    }
}

/// The expression that the token `t` makes of `left` and of what follows,
/// where `pos` is the position after `t`.
pub open spec fn led_of(t: Token, ts: Seq<Token>, left: Expr, pos: int) -> Step
    decreases ts.len() - pos, 3int,
{
    match binop_of(t) {
        Ok(op) => {
            let (right, p) = expression_at(ts, pos, right_power(t));
            match right {
                Ok(rhs) => (Ok(Expr::Binary(Box::new(left), op, Box::new(rhs))), p),
                Err(x) => (Err(x), p),
            }
        },
        Err(x) => (Err(x), pos),
    }
}

/// Folds into `left` every operator from `pos` on that binds more strongly
/// than `rbp`, each with its right operand.
pub open spec fn fold_from(ts: Seq<Token>, left: Expr, pos: int, rbp: int) -> Step
    decreases ts.len() - pos, 1int,
{
    if 0 <= pos < ts.len() && binding_power(ts[pos]) > rbp {
        let (folded, p) = led_step(ts, left, pos);
        match folded {
            Ok(e) => if pos < p <= ts.len() {
                fold_from(ts, e, p, rbp)
            } else {
                (Err(Error::IncompleteInput), p)
            },
            Err(x) => (Err(x), p),
        }
    } else {
        (Ok(left), pos)
    }
}

/// The expression that the tokens `ts` write: the one that starts at the
/// first token, provided that it ends at the last. The first failure met on
/// the way is the failure of the whole; tokens left over after a complete
/// expression are a failure too.
pub open spec fn parse_spec(ts: Seq<Token>) -> Result<Expr, Error> {
    let (r, p) = expression_at(ts, 0, 0);
    match r {
        Ok(e) => if p == ts.len() {
            Ok(e)
        } else {
            Err(Error::TrailingInput)
        },
        Err(x) => Err(x),
    }
}

/// The infix operator that a token stands for.
pub fn token_to_binop(token: Token) -> (r: Result<BinaryOp, Error>)
    ensures
        r == binop_of(token),
{
    match token {
        Token::Pow => Ok(BinaryOp::Pow),
        Token::Times => Ok(BinaryOp::Mul),
        Token::Divide => Ok(BinaryOp::Div),
        Token::Plus => Ok(BinaryOp::Add),
        Token::Minus => Ok(BinaryOp::Sub),
        _ => Err(Error::ExpectingOperator),
    }
}

/// Lexes a text and parses its tokens.
pub fn parse_and_lex(input: &String) -> (r: Result<Expr, Error>)
    ensures
        r == parse_spec(lex_spec(input@)),
{
    let tokens = lex(input);
    parse(&tokens)
}

/// Parses a sequence of tokens into the one expression that it writes.
pub fn parse(tokens: &Vec<Token>) -> (r: Result<Expr, Error>)
    ensures
        r == parse_spec(tokens@),
{
    let mut parser = Parser::new(tokens);
    match parser.parse_expr() {
        Ok(ast) => {
            if parser.pos == tokens.len() {
                Ok(ast)
            } else {
                Err(Error::TrailingInput)
            }
        },
        Err(x) => Err(x),
    }
}

/// A reader of tokens that remembers how far it has come.
pub struct Parser<'a> {
    input: &'a Vec<Token>,
    pos: usize,
}

impl Token {
    /// Null denotation: the term that this token starts. The parser stands
    /// behind the token.
    fn nud(&self, parser: &mut Parser) -> (r: Result<Expr, Error>)
        requires
            old(parser).wf(),
        ensures
            final(parser).wf(),
            final(parser).input == old(parser).input,
            final(parser).pos >= old(parser).pos,
            nud_of(*self, old(parser).input@, old(parser).pos as int) == (
                r,
                final(parser).pos as int,
            ),
        decreases old(parser).input@.len() - old(parser).pos, 3int,
    {
        match *self {
            Token::Integer(n) => Ok(Expr::Literal(n)),
            Token::Minus => {
                match parser.expression(PREFIX_POWER) {
                    Ok(e) => Ok(Expr::Unary(UnaryOp::Neg, Box::new(e))),
                    Err(x) => Err(x),
                }
            },
            Token::LParen => {
                match parser.expression(0) {
                    Ok(e) => {
                        if parser.pos < parser.input.len() {
                            let closing = parser.input[parser.pos];
                            parser.pos = parser.pos + 1;
                            match closing {
                                Token::RParen => Ok(e),
                                _ => Err(Error::UnbalancedParens),
                            }
                        } else {
                            Err(Error::UnbalancedParens)
                        }
                    },
                    Err(x) => Err(x),
                }
            },
            _ => Err(Error::ExpectingLiteral),
        }
    }

    /// Left denotation: the expression that this token makes of `lhs` and of
    /// what follows. The parser stands behind the token.
    fn led(&self, parser: &mut Parser, lhs: Expr) -> (r: Result<Expr, Error>)
        requires
            old(parser).wf(),
        ensures
            final(parser).wf(),
            final(parser).input == old(parser).input,
            final(parser).pos >= old(parser).pos,
            led_of(*self, old(parser).input@, lhs, old(parser).pos as int) == (
                r,
                final(parser).pos as int,
            ),
        decreases old(parser).input@.len() - old(parser).pos, 3int,
    {
        match *self {
            Token::Times | Token::Divide | Token::Plus | Token::Minus => {
                match token_to_binop(*self) {
                    Ok(op) => match parser.expression(self.lbp()) {
                        Ok(rhs) => Ok(Expr::Binary(Box::new(lhs), op, Box::new(rhs))),
                        Err(x) => Err(x),
                    },
                    Err(x) => Err(x),
                }
            },
            Token::Pow => {
                match parser.expression(self.lbp() - 1) {
                    Ok(rhs) => Ok(Expr::Binary(Box::new(lhs), BinaryOp::Pow, Box::new(rhs))),
                    Err(x) => Err(x),
                }
            },
            _ => Err(Error::ExpectingOperator),
        }
    }

    /// Left binding power: the precedence of each operator.
    fn lbp(&self) -> (bp: u32)
        ensures
            bp == binding_power(*self),
    {
        match self {
            Token::Pow => 30,
            Token::Times | Token::Divide => 20,
            Token::Plus | Token::Minus => 10,
            _ => 0,
        }
    }
}

impl<'a> Parser<'a> {
    /// The tokens that are being read.
    pub closed spec fn tokens(&self) -> Seq<Token> {
        self.input@
    }

    /// The number of tokens that have been read.
    pub closed spec fn position(&self) -> int {
        self.pos as int
    }

    /// The position lies inside the tokens.
    pub closed spec fn wf(&self) -> bool {
        self.pos <= self.input@.len()
    }

    /// A parser in front of the first of `input`.
    pub fn new(input: &'a Vec<Token>) -> (parser: Parser<'a>)
        ensures
            parser.wf(),
            parser.tokens() == input@,
            parser.position() == 0,
    {
        Parser { input, pos: 0 }
    }

    /// Reads one expression, as long as it extends, and leaves the parser
    /// behind it. After a failure the parser stands where the failure was
    /// found.
    pub fn parse_expr(&mut self) -> (r: Result<Expr, Error>)
        requires
            old(self).wf(),
        ensures
            final(self).wf(),
            final(self).tokens() == old(self).tokens(),
            expression_at(old(self).tokens(), old(self).position(), 0) == (
                r,
                final(self).position(),
            ),
            r is Ok ==> old(self).position() < final(self).position(),
    {
        self.expression(0)
    }

    /// Reads one term and folds into it every operator that binds more
    /// strongly than `rbp`.
    fn expression(&mut self, rbp: u32) -> (r: Result<Expr, Error>)
        requires
            old(self).wf(),
        ensures
            final(self).wf(),
            final(self).input == old(self).input,
            final(self).pos >= old(self).pos,
            r is Ok ==> final(self).pos > old(self).pos,
            expression_at(old(self).input@, old(self).pos as int, rbp as int) == (
                r,
                final(self).pos as int,
            ),
        decreases old(self).input@.len() - old(self).pos, 2int,
    {
        let ghost ts = self.input@;
        let ghost start = self.pos as int;
        let mut left = match self.parse_nud() {
            Ok(e) => e,
            Err(x) => {
                return Err(x);
            },
        };
        while self.next_binds_tighter_than(rbp)
            invariant
                self.wf(),
                self.input == old(self).input,
                ts == self.input@,
                start == old(self).pos as int,
                0 <= start < self.pos,
                expression_at(ts, start, rbp as int) == fold_from(
                    ts,
                    left,
                    self.pos as int,
                    rbp as int,
                ),
            decreases ts.len() - self.pos,
        {
            match self.parse_led(left) {
                Ok(e) => {
                    left = e;
                },
                Err(x) => {
                    return Err(x);
                },
            }
        }
        Ok(left)
    }

    /// Whether a token follows that binds more strongly than `rbp`.
    fn next_binds_tighter_than(&self, rbp: u32) -> (b: bool)
        requires
            self.wf(),
        ensures
            b == (self.pos < self.input@.len() && binding_power(self.input@[self.pos as int])
                > rbp),
    {
        self.pos < self.input.len() && self.input[self.pos].lbp() > rbp
    }

    /// Reads the token that starts a term, and the term.
    fn parse_nud(&mut self) -> (r: Result<Expr, Error>)
        requires
            old(self).wf(),
        ensures
            final(self).wf(),
            final(self).input == old(self).input,
            final(self).pos >= old(self).pos,
            r is Ok ==> final(self).pos > old(self).pos,
            nud_step(old(self).input@, old(self).pos as int) == (r, final(self).pos as int),
        decreases old(self).input@.len() - old(self).pos, 0int,
    {
        if self.pos < self.input.len() {
            let t = self.input[self.pos];
            self.pos = self.pos + 1;
            t.nud(self)
        } else {
            Err(Error::IncompleteInput)
        }
    }

    /// Reads the token that continues `expr`, and what it takes.
    fn parse_led(&mut self, expr: Expr) -> (r: Result<Expr, Error>)
        requires
            old(self).wf(),
        ensures
            final(self).wf(),
            final(self).input == old(self).input,
            final(self).pos >= old(self).pos,
            r is Ok ==> final(self).pos > old(self).pos,
            led_step(old(self).input@, expr, old(self).pos as int) == (
                r,
                final(self).pos as int,
            ),
        decreases old(self).input@.len() - old(self).pos, 0int,
    {
        if self.pos < self.input.len() {
            let t = self.input[self.pos];
            self.pos = self.pos + 1;
            t.led(self, expr)
        } else {
            Err(Error::IncompleteInput)
        }
    }
}

} // verus!
