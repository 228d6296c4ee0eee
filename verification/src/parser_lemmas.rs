//! What holds of the parser's model: how far a step reads, how operators
//! group, and what parentheses do.

use vstd::prelude::*;
use crate::error::Error;
use crate::lexer::Token;
use crate::parser::{
    binding_power, binop_of, expression_at, fold_from, led_of, led_step, nud_of, nud_step,
    parse_spec, right_power, Expr, UnaryOp,
};

verus! {

/// A step that starts inside the tokens ends inside them, and not before
/// its start; one that succeeds has read at least one token.
pub open spec fn advances(step: (Result<Expr, Error>, int), pos: int, len: int) -> bool {
    let (r, p) = step;
    pos <= p <= len && (r is Ok ==> pos < p)
}

/// A step that starts behind its token ends inside the tokens, and not
/// before its start.
pub open spec fn stays(step: (Result<Expr, Error>, int), pos: int, len: int) -> bool {
    let (r, p) = step;
    pos <= p <= len
}

/// An expression that is read takes at least one token and ends inside the
/// tokens. The model of the parser guards each continuation by this very
/// condition, so none of its guards ever fails.
pub proof fn lemma_expression_advances(ts: Seq<Token>, pos: int, rbp: int)
    requires
        0 <= pos <= ts.len(),
    ensures
        advances(expression_at(ts, pos, rbp), pos, ts.len() as int),
    decreases ts.len() - pos, 2int,
{
    lemma_nud_step_advances(ts, pos);
    let (first, p) = nud_step(ts, pos);
    match first {
        Ok(left) => {
            lemma_fold_stays(ts, left, p, rbp);
        },
        Err(x) => {},
    }
}

/// A term that is read takes at least one token and ends inside the tokens.
pub proof fn lemma_nud_step_advances(ts: Seq<Token>, pos: int)
    requires
        0 <= pos <= ts.len(),
    ensures
        advances(nud_step(ts, pos), pos, ts.len() as int),
    decreases ts.len() - pos, 0int,
{
    if pos < ts.len() {
        lemma_nud_of_stays(ts[pos], ts, pos + 1);
    }
}

/// A term ends inside the tokens, behind the token that starts it.
proof fn lemma_nud_of_stays(t: Token, ts: Seq<Token>, pos: int)
    requires
        0 <= pos <= ts.len(),
    ensures
        stays(nud_of(t, ts, pos), pos, ts.len() as int),
    decreases ts.len() - pos, 3int,
{
    match t {
        Token::Minus => {
            lemma_expression_advances(ts, pos, crate::parser::PREFIX_POWER as int);
        },
        Token::LParen => {
            lemma_expression_advances(ts, pos, 0);
        },
        _ => {},
    }
}

/// An operator that is folded in takes at least one token and ends inside
/// the tokens.
pub proof fn lemma_led_step_advances(ts: Seq<Token>, left: Expr, pos: int)
    requires
        0 <= pos <= ts.len(),
    ensures
        advances(led_step(ts, left, pos), pos, ts.len() as int),
    decreases ts.len() - pos, 0int,
{
    if pos < ts.len() {
        lemma_led_of_stays(ts[pos], ts, left, pos + 1);
    }
}

/// What an operator takes ends inside the tokens, behind the operator.
proof fn lemma_led_of_stays(t: Token, ts: Seq<Token>, left: Expr, pos: int)
    requires
        0 <= pos <= ts.len(),
    ensures
        stays(led_of(t, ts, left, pos), pos, ts.len() as int),
    decreases ts.len() - pos, 3int,
{
    if binop_of(t) is Ok {
        lemma_expression_advances(ts, pos, right_power(t));
    }
}

/// Folding operators in ends inside the tokens, not before its start.
proof fn lemma_fold_stays(ts: Seq<Token>, left: Expr, pos: int, rbp: int)
    requires
        0 <= pos <= ts.len(),
    ensures
        stays(fold_from(ts, left, pos, rbp), pos, ts.len() as int),
    decreases ts.len() - pos, 1int,
{
    if pos < ts.len() && binding_power(ts[pos]) > rbp {
        lemma_led_step_advances(ts, left, pos);
        let (folded, p) = led_step(ts, left, pos);
        match folded {
            Ok(e) => {
                lemma_fold_stays(ts, e, p, rbp);
            },
            Err(x) => {},
        }
    }
}

/// An integer that is followed by the end of the tokens, or by a token that
/// does not bind more strongly than `rbp`, is a whole expression.
pub proof fn lemma_literal_alone(ts: Seq<Token>, pos: int, n: i64, rbp: int)
    requires
        0 <= pos < ts.len(),
        ts[pos] == Token::Integer(n),
        pos + 1 == ts.len() || binding_power(ts[pos + 1]) <= rbp,
    ensures
        expression_at(ts, pos, rbp) == (Ok::<Expr, Error>(Expr::Literal(n)), pos + 1),
{
    assert(nud_of(ts[pos], ts, pos + 1) == (Ok::<Expr, Error>(Expr::Literal(n)), pos + 1));
    assert(nud_step(ts, pos) == (Ok::<Expr, Error>(Expr::Literal(n)), pos + 1));
    assert(fold_from(ts, Expr::Literal(n), pos + 1, rbp) == (
        Ok::<Expr, Error>(Expr::Literal(n)),
        pos + 1,
    ));
}

/// An infix operator at `pos` whose right operand is read as `rhs`, up to
/// `end`, and which is followed there by the end of the tokens or by a token
/// that does not bind more strongly than `rbp`, folds `left` and `rhs` into
/// one node, and the folding ends there.
pub proof fn lemma_fold_once(ts: Seq<Token>, left: Expr, pos: int, rbp: int, rhs: Expr, end: int)
    requires
        0 <= pos < ts.len(),
        binop_of(ts[pos]) is Ok,
        binding_power(ts[pos]) > rbp,
        expression_at(ts, pos + 1, right_power(ts[pos])) == (Ok::<Expr, Error>(rhs), end),
        pos < end <= ts.len(),
        end == ts.len() || binding_power(ts[end]) <= rbp,
    ensures
        fold_from(ts, left, pos, rbp) == (
            Ok::<Expr, Error>(
                Expr::Binary(Box::new(left), binop_of(ts[pos])->Ok_0, Box::new(rhs)),
            ),
            end,
        ),
{
    let node = Expr::Binary(Box::new(left), binop_of(ts[pos])->Ok_0, Box::new(rhs));
    assert(led_of(ts[pos], ts, left, pos + 1) == (Ok::<Expr, Error>(node), end));
    assert(led_step(ts, left, pos) == (Ok::<Expr, Error>(node), end));
    assert(fold_from(ts, node, end, rbp) == (Ok::<Expr, Error>(node), end));
}

/// A single integer parses to the literal of its value.
pub proof fn lemma_parse_literal(n: i64)
    ensures
        parse_spec(seq![Token::Integer(n)]) == Ok::<Expr, Error>(Expr::Literal(n)),
{
}

/// An integer in parentheses parses to the literal of its value: the
/// parentheses leave no trace in the tree.
pub proof fn lemma_parse_parenthesized_literal(n: i64)
    ensures
        parse_spec(seq![Token::LParen, Token::Integer(n), Token::RParen]) == Ok::<Expr, Error>(
            Expr::Literal(n),
        ),
{
    let ts = seq![Token::LParen, Token::Integer(n), Token::RParen];
    let e = Expr::Literal(n);
    lemma_literal_alone(ts, 1, n, 0);
    assert(nud_of(ts[0], ts, 1) == (Ok::<Expr, Error>(e), 3int));
    assert(nud_step(ts, 0) == (Ok::<Expr, Error>(e), 3int));
    assert(fold_from(ts, e, 3, 0) == (Ok::<Expr, Error>(e), 3int));
}

/// A prefix minus in front of an integer parses to the negation of the
/// literal.
pub proof fn lemma_parse_negated_literal(n: i64)
    ensures
        parse_spec(seq![Token::Minus, Token::Integer(n)]) == Ok::<Expr, Error>(
            Expr::Unary(UnaryOp::Neg, Box::new(Expr::Literal(n))),
        ),
{
    let ts = seq![Token::Minus, Token::Integer(n)];
    let e = Expr::Unary(UnaryOp::Neg, Box::new(Expr::Literal(n)));
    lemma_literal_alone(ts, 1, n, crate::parser::PREFIX_POWER as int);
    assert(nud_of(ts[0], ts, 1) == (Ok::<Expr, Error>(e), 2int));
    assert(nud_step(ts, 0) == (Ok::<Expr, Error>(e), 2int));
    assert(fold_from(ts, e, 2, 0) == (Ok::<Expr, Error>(e), 2int));
}

/// A prefix minus binds more strongly than any infix operator: in `- a t b`
/// the minus takes `a` alone, exponentiation included.
pub proof fn lemma_parse_negation_binds_first(a: i64, t: Token, b: i64)
    requires
        binop_of(t) is Ok,
    ensures
        parse_spec(seq![Token::Minus, Token::Integer(a), t, Token::Integer(b)]) == Ok::<
            Expr,
            Error,
        >(
            Expr::Binary(
                Box::new(Expr::Unary(UnaryOp::Neg, Box::new(Expr::Literal(a)))),
                binop_of(t)->Ok_0,
                Box::new(Expr::Literal(b)),
            ),
        ),
{
    let ts = seq![Token::Minus, Token::Integer(a), t, Token::Integer(b)];
    let negated = Expr::Unary(UnaryOp::Neg, Box::new(Expr::Literal(a)));
    lemma_literal_alone(ts, 1, a, crate::parser::PREFIX_POWER as int);
    assert(nud_of(ts[0], ts, 1) == (Ok::<Expr, Error>(negated), 2int));
    assert(nud_step(ts, 0) == (Ok::<Expr, Error>(negated), 2int));
    lemma_literal_alone(ts, 3, b, right_power(t));
    lemma_fold_once(ts, negated, 2, 0, Expr::Literal(b), 4);
}

/// Two integers with no operator between them do not parse: the second is
/// left over, and the first is not handed out alone.
pub proof fn lemma_parse_two_literals(a: i64, b: i64)
    ensures
        parse_spec(seq![Token::Integer(a), Token::Integer(b)]) == Err::<Expr, Error>(
            Error::TrailingInput,
        ),
{
}

/// Whatever the tokens, a successful parse has read all of them, and tokens
/// left over after a complete expression make the parse fail.
pub proof fn lemma_parse_reads_everything(ts: Seq<Token>)
    ensures
        parse_spec(ts) is Ok ==> expression_at(ts, 0, 0) == (parse_spec(ts), ts.len() as int),
        ({
            let (r, p) = expression_at(ts, 0, 0);
            r is Ok && p != ts.len() ==> parse_spec(ts) == Err::<Expr, Error>(
                Error::TrailingInput,
            )
        }),
{
}

/// In `a t1 b t2 c` the first operator takes `b` where the second does not
/// bind more strongly than the first reads its right operand: the tree
/// leans to the left. This holds of two operators of one level other than
/// exponentiation, and of a stronger operator before a weaker one.
pub proof fn lemma_parse_groups_left(a: i64, t1: Token, b: i64, t2: Token, c: i64)
    requires
        binop_of(t1) is Ok,
        binop_of(t2) is Ok,
        binding_power(t2) <= right_power(t1),
    ensures
        parse_spec(seq![Token::Integer(a), t1, Token::Integer(b), t2, Token::Integer(c)])
            == Ok::<Expr, Error>(
            Expr::Binary(
                Box::new(
                    Expr::Binary(
                        Box::new(Expr::Literal(a)),
                        binop_of(t1)->Ok_0,
                        Box::new(Expr::Literal(b)),
                    ),
                ),
                binop_of(t2)->Ok_0,
                Box::new(Expr::Literal(c)),
            ),
        ),
{
    let ts = seq![Token::Integer(a), t1, Token::Integer(b), t2, Token::Integer(c)];
    let ea = Expr::Literal(a);
    let eb = Expr::Literal(b);
    let ec = Expr::Literal(c);
    let ab = Expr::Binary(Box::new(ea), binop_of(t1)->Ok_0, Box::new(eb));
    let abc = Expr::Binary(Box::new(ab), binop_of(t2)->Ok_0, Box::new(ec));
    lemma_literal_alone(ts, 2, b, right_power(t1));
    lemma_literal_alone(ts, 4, c, right_power(t2));
    lemma_fold_once(ts, ab, 3, 0, ec, 5);
    assert(led_of(ts[1], ts, ea, 2) == (Ok::<Expr, Error>(ab), 3int));
    assert(led_step(ts, ea, 1) == (Ok::<Expr, Error>(ab), 3int));
    assert(fold_from(ts, ea, 1, 0) == (Ok::<Expr, Error>(abc), 5int));
    assert(nud_of(ts[0], ts, 1) == (Ok::<Expr, Error>(ea), 1int));
    assert(nud_step(ts, 0) == (Ok::<Expr, Error>(ea), 1int));
}

/// In `a t1 b t2 c` the second operator takes `b` where it binds more
/// strongly than the first reads its right operand: the tree leans to the
/// right. This holds of two exponentiations, and of a weaker operator
/// before a stronger one.
pub proof fn lemma_parse_groups_right(a: i64, t1: Token, b: i64, t2: Token, c: i64)
    requires
        binop_of(t1) is Ok,
        binop_of(t2) is Ok,
        binding_power(t2) > right_power(t1),
    ensures
        parse_spec(seq![Token::Integer(a), t1, Token::Integer(b), t2, Token::Integer(c)])
            == Ok::<Expr, Error>(
            Expr::Binary(
                Box::new(Expr::Literal(a)),
                binop_of(t1)->Ok_0,
                Box::new(
                    Expr::Binary(
                        Box::new(Expr::Literal(b)),
                        binop_of(t2)->Ok_0,
                        Box::new(Expr::Literal(c)),
                    ),
                ),
            ),
        ),
{
    let ts = seq![Token::Integer(a), t1, Token::Integer(b), t2, Token::Integer(c)];
    let ea = Expr::Literal(a);
    let eb = Expr::Literal(b);
    let ec = Expr::Literal(c);
    let bc = Expr::Binary(Box::new(eb), binop_of(t2)->Ok_0, Box::new(ec));
    let abc = Expr::Binary(Box::new(ea), binop_of(t1)->Ok_0, Box::new(bc));
    lemma_literal_alone(ts, 4, c, right_power(t2));
    lemma_fold_once(ts, eb, 3, right_power(t1), ec, 5);
    assert(nud_of(ts[2], ts, 3) == (Ok::<Expr, Error>(eb), 3int));
    assert(nud_step(ts, 2) == (Ok::<Expr, Error>(eb), 3int));
    assert(expression_at(ts, 2, right_power(t1)) == (Ok::<Expr, Error>(bc), 5int));
    lemma_fold_once(ts, ea, 1, 0, bc, 5);
    assert(nud_of(ts[0], ts, 1) == (Ok::<Expr, Error>(ea), 1int));
    assert(nud_step(ts, 0) == (Ok::<Expr, Error>(ea), 1int));
}

/// The tokens `inner` stand in `outer` from position `shift` on, and are
/// followed there by a token that binds nothing.
pub open spec fn embedded(inner: Seq<Token>, outer: Seq<Token>, shift: int) -> bool {
    &&& 0 <= shift
    &&& inner.len() + shift < outer.len()
    &&& forall|i: int| 0 <= i < inner.len() ==> outer[i + shift] == inner[i]
    &&& binding_power(outer[inner.len() + shift]) == 0
}

/// A step that succeeds on `inner` succeeds in the same way where `inner` is
/// embedded in `outer`: with the same tree, and the same number of tokens
/// read.
pub open spec fn carries_over(
    on_inner: (Result<Expr, Error>, int),
    on_outer: (Result<Expr, Error>, int),
    shift: int,
) -> bool {
    let (r, p) = on_inner;
    r is Ok ==> on_outer == (r, p + shift)
}

/// An expression that is read from tokens is read in the same way from any
/// longer sequence in which these tokens are embedded.
pub proof fn lemma_expression_embedded(
    inner: Seq<Token>,
    outer: Seq<Token>,
    shift: int,
    pos: int,
    rbp: int,
)
    requires
        embedded(inner, outer, shift),
        0 <= pos <= inner.len(),
        0 <= rbp,
    ensures
        carries_over(
            expression_at(inner, pos, rbp),
            expression_at(outer, pos + shift, rbp),
            shift,
        ),
    decreases inner.len() - pos, 2int,
{
    let (first, p) = nud_step(inner, pos);
    lemma_nud_step_embedded(inner, outer, shift, pos);
    match first {
        Ok(left) => {
            if pos < p <= inner.len() {
                lemma_fold_embedded(inner, outer, shift, left, p, rbp);
            }
        },
        Err(x) => {},
    }
}

/// A term is read in the same way from embedded tokens.
proof fn lemma_nud_step_embedded(inner: Seq<Token>, outer: Seq<Token>, shift: int, pos: int)
    requires
        embedded(inner, outer, shift),
        0 <= pos <= inner.len(),
    ensures
        carries_over(nud_step(inner, pos), nud_step(outer, pos + shift), shift),
    decreases inner.len() - pos, 0int,
{
    if pos < inner.len() {
        lemma_nud_of_embedded(inner[pos], inner, outer, shift, pos + 1);
    }
}

/// A token starts the same term in embedded tokens.
proof fn lemma_nud_of_embedded(
    t: Token,
    inner: Seq<Token>,
    outer: Seq<Token>,
    shift: int,
    pos: int,
)
    requires
        embedded(inner, outer, shift),
        0 <= pos <= inner.len(),
    ensures
        carries_over(nud_of(t, inner, pos), nud_of(t, outer, pos + shift), shift),
    decreases inner.len() - pos, 3int,
{
    match t {
        Token::Minus => {
            lemma_expression_embedded(
                inner,
                outer,
                shift,
                pos,
                crate::parser::PREFIX_POWER as int,
            );
        },
        Token::LParen => {
            lemma_expression_embedded(inner, outer, shift, pos, 0);
        },
        _ => {},
    }
}

/// An operator is folded in in the same way in embedded tokens.
proof fn lemma_led_step_embedded(
    inner: Seq<Token>,
    outer: Seq<Token>,
    shift: int,
    left: Expr,
    pos: int,
)
    requires
        embedded(inner, outer, shift),
        0 <= pos <= inner.len(),
    ensures
        carries_over(led_step(inner, left, pos), led_step(outer, left, pos + shift), shift),
    decreases inner.len() - pos, 0int,
{
    if pos < inner.len() {
        lemma_led_of_embedded(inner[pos], inner, outer, shift, left, pos + 1);
    }
}

/// An operator takes the same right operand in embedded tokens.
proof fn lemma_led_of_embedded(
    t: Token,
    inner: Seq<Token>,
    outer: Seq<Token>,
    shift: int,
    left: Expr,
    pos: int,
)
    requires
        embedded(inner, outer, shift),
        0 <= pos <= inner.len(),
    ensures
        carries_over(led_of(t, inner, left, pos), led_of(t, outer, left, pos + shift), shift),
    decreases inner.len() - pos, 3int,
{
    if binop_of(t) is Ok {
        lemma_expression_embedded(inner, outer, shift, pos, right_power(t));
    }
}

/// Operators are folded in in the same way in embedded tokens.
proof fn lemma_fold_embedded(
    inner: Seq<Token>,
    outer: Seq<Token>,
    shift: int,
    left: Expr,
    pos: int,
    rbp: int,
)
    requires
        embedded(inner, outer, shift),
        0 <= pos <= inner.len(),
        0 <= rbp,
    ensures
        carries_over(
            fold_from(inner, left, pos, rbp),
            fold_from(outer, left, pos + shift, rbp),
            shift,
        ),
    decreases inner.len() - pos, 1int,
{
    if pos < inner.len() && binding_power(inner[pos]) > rbp {
        lemma_led_step_embedded(inner, outer, shift, left, pos);
        let (folded, p) = led_step(inner, left, pos);
        match folded {
            Ok(e) => {
                if pos < p <= inner.len() {
                    lemma_fold_embedded(inner, outer, shift, e, p, rbp);
                }
            },
            Err(x) => {},
        }
    }
}

/// Parentheses around tokens that parse leave the tree as it is.
pub proof fn lemma_parse_parenthesized(ts: Seq<Token>)
    requires
        parse_spec(ts) is Ok,
    ensures
        parse_spec(seq![Token::LParen] + ts + seq![Token::RParen]) == parse_spec(ts),
{
    let outer = seq![Token::LParen] + ts + seq![Token::RParen];
    let n = ts.len() as int;
    let r = parse_spec(ts);
    let e = r->Ok_0;
    assert(outer.len() == n + 2);
    assert(outer[0] == Token::LParen);
    assert(outer[n + 1] == Token::RParen);
    assert(embedded(ts, outer, 1));
    lemma_expression_embedded(ts, outer, 1, 0, 0);
    assert(expression_at(outer, 1, 0) == (r, n + 1));
    assert(nud_of(outer[0], outer, 1) == (r, n + 2));
    assert(nud_step(outer, 0) == (r, n + 2));
    assert(fold_from(outer, e, n + 2, 0) == (r, n + 2));
}

} // verus!
