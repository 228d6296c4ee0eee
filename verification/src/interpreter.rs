//! The interpreter: reduces a tree to its value. Every operation is checked:
//! a value that does not fit in 64 signed bits is an error, never a wrapped
//! number.

use vstd::prelude::*;
use vstd::arithmetic::power::pow;
use crate::error::Error;
use crate::parser::{Expr, UnaryOp, BinaryOp};

verus! {

/// Whether `v` is a 64-bit signed integer.
pub open spec fn fits(v: int) -> bool {
    i64::MIN <= v <= i64::MAX
}

/// The value `v` as a result of the evaluation: itself where it fits in 64
/// signed bits, an overflow otherwise.
pub open spec fn checked(v: int) -> Result<i64, Error> {
    if fits(v) {
        Ok(v as i64)
    } else {
        Err(Error::Overflow)
    }
}

/// The distance of `v` from zero.
pub open spec fn magnitude(v: int) -> int {
    if v < 0 {
        -v
    } else {
        v
    }
}

/// The quotient of `a` by `b`, rounded toward zero.
pub open spec fn quotient(a: int, b: int) -> int
    recommends
        b != 0,
{
    if (a >= 0) == (b > 0) {
        magnitude(a) / magnitude(b)
    } else {
        -(magnitude(a) / magnitude(b))
    }
}

/// What a prefix operator makes of the value of its operand.
pub open spec fn apply_unary(op: UnaryOp, v: i64) -> Result<i64, Error> {
    match op {
        UnaryOp::Neg => checked(-v),
    }
}

/// What an infix operator makes of the values of its operands.
pub open spec fn apply_binary(op: BinaryOp, l: i64, r: i64) -> Result<i64, Error> {
    match op {
        BinaryOp::Add => checked(l + r),
        BinaryOp::Sub => checked(l - r),
        BinaryOp::Mul => checked(l * r),
        BinaryOp::Div => if r == 0 {
            Err(Error::DivisionByZero)
        } else {
            checked(quotient(l as int, r as int))
        },
        BinaryOp::Pow => if r < 0 {
            Err(Error::NegativeExponent)
        } else {
            checked(pow(l as int, r as nat))
        },
    }
}

/// The value of an expression: operands are evaluated left before right, and
/// the first failure is the failure of the whole.
pub open spec fn eval(e: Expr) -> Result<i64, Error>
    decreases e,
{
    match e {
        Expr::Literal(n) => Ok(n),
        Expr::Unary(op, operand) => match eval(*operand) {
            Ok(v) => apply_unary(op, v),
            Err(x) => Err(x),
        },
        Expr::Binary(left, op, right) => match eval(*left) {
            Ok(l) => match eval(*right) {
                Ok(r) => apply_binary(op, l, r),
                Err(x) => Err(x),
            },
            Err(x) => Err(x),
        },
    }
}

/// One more factor: the next power is the base times this one.
proof fn lemma_pow_succ(b: int, n: nat)
    ensures
        pow(b, n + 1) == b * pow(b, n),
{
    reveal(pow);
}

/// The powers of minus one alternate between one and minus one.
proof fn lemma_pow_of_minus_one(n: nat)
    ensures
        pow(-1, n) == if n % 2 == 0 { 1int } else { -1int },
    decreases n,
{
    reveal(pow);
    if n > 0 {
        lemma_pow_of_minus_one((n - 1) as nat);
    }
}

/// No power of a base other than zero is zero.
proof fn lemma_pow_nonzero(b: int, n: nat)
    requires
        b != 0,
    ensures
        magnitude(pow(b, n)) >= 1,
    decreases n,
{
    reveal(pow);
    if n > 0 {
        lemma_pow_nonzero(b, (n - 1) as nat);
        let p = pow(b, (n - 1) as nat);
        assert(b * p != 0) by (nonlinear_arith)
            requires
                b != 0,
                p != 0,
        ;
    }
}

/// The powers of a base of magnitude two or more at least double with
/// each step, so that once one of them is out of range all later ones are.
proof fn lemma_pow_doubles(b: int, k: nat, n: nat)
    requires
        magnitude(b) >= 2,
        k < n,
    ensures
        magnitude(pow(b, n)) >= 2 * magnitude(pow(b, k)),
    decreases n,
{
    let m = (n - 1) as nat;
    lemma_pow_succ(b, m);
    lemma_pow_nonzero(b, k);
    if k < m {
        lemma_pow_doubles(b, k, m);
    }
    let p = pow(b, m);
    assert(magnitude(b * p) >= 2 * magnitude(p)) by (nonlinear_arith)
        requires
            magnitude(b) >= 2,
    ;
}

/// `base` raised to the power `exp` by repeated multiplication.
fn power(base: i64, exp: i64) -> (r: Result<i64, Error>)
    requires
        exp >= 0,
    ensures
        r == checked(pow(base as int, exp as nat)),
{
    if base == 0 {
        proof {
            vstd::arithmetic::power::lemma_pow0(0);
            if exp > 0 {
                vstd::arithmetic::power::lemma0_pow(exp as nat);
            }
        }
        if exp == 0 {
            Ok(1)
        } else {
            Ok(0)
        }
    } else if base == 1 {
        proof {
            vstd::arithmetic::power::lemma1_pow(exp as nat);
        }
        Ok(1)
    } else if base == -1 {
        proof {
            lemma_pow_of_minus_one(exp as nat);
        }
        if exp % 2 == 0 {
            Ok(1)
        } else {
            Ok(-1)
        }
    } else {
        let mut acc: i64 = 1;
        let mut done: i64 = 0;
        proof {
            vstd::arithmetic::power::lemma_pow0(base as int);
        }
        while done < exp
            invariant
                0 <= done <= exp,
                magnitude(base as int) >= 2,
                acc == pow(base as int, done as nat),
            decreases exp - done,
        {
            proof {
                lemma_pow_succ(base as int, done as nat);
                assert(base * acc == acc * base) by (nonlinear_arith);
            }
            match acc.checked_mul(base) {
                Some(next) => {
                    acc = next;
                    done = done + 1;
                },
                None => {
                    proof {
                        if done + 1 < exp {
                            lemma_pow_doubles(base as int, (done + 1) as nat, exp as nat);
                        }
                    }
                    return Err(Error::Overflow);
                },
            }
        }
        Ok(acc)
    }
}

/// A value of checked arithmetic as a result of the evaluation.
fn lift(v: Option<i64>) -> (r: Result<i64, Error>)
    ensures
        r == match v {
            Some(x) => Ok::<i64, Error>(x),
            None => Err(Error::Overflow),
        },
{
    match v {
        Some(x) => Ok(x),
        None => Err(Error::Overflow),
    }
}

/// Applies a prefix operator to the value of its operand.
fn handle_unop(op: UnaryOp, left: i64) -> (r: Result<i64, Error>)
    ensures
        r == apply_unary(op, left),
{
    match op {
        UnaryOp::Neg => lift(0i64.checked_sub(left)),
    }
}

/// Applies an infix operator to the values of its operands.
fn handle_binop(op: BinaryOp, left: i64, right: i64) -> (r: Result<i64, Error>)
    ensures
        r == apply_binary(op, left, right),
{
    match op {
        BinaryOp::Mul => lift(left.checked_mul(right)),
        BinaryOp::Div => {
            if right == 0 {
                Err(Error::DivisionByZero)
            } else {
                lift(left.checked_div(right))
            }
        },
        BinaryOp::Add => lift(left.checked_add(right)),
        BinaryOp::Sub => lift(left.checked_sub(right)),
        BinaryOp::Pow => {
            if right >= 0 {
                power(left, right)
            } else {
                Err(Error::NegativeExponent)
            }
        },
    }
}

/// Reduces an expression to its value.
pub fn interpret(expr: &Expr) -> (r: Result<i64, Error>)
    ensures
        r == eval(*expr),
    decreases *expr,
{
    match expr {
        Expr::Literal(n) => Ok(*n),
        Expr::Unary(op, operand) => match interpret(operand) {
            Ok(v) => handle_unop(*op, v),
            Err(x) => Err(x),
        },
        Expr::Binary(left, op, right) => match interpret(left) {
            Ok(l) => match interpret(right) {
                Ok(r) => handle_binop(*op, l, r),
                Err(x) => Err(x),
            },
            Err(x) => Err(x),
        },
    }
}

/// A division whose divisor evaluates to zero fails, whatever the dividend
/// evaluates to.
pub proof fn lemma_division_by_zero(left: Expr, right: Expr)
    requires
        eval(left) is Ok,
        eval(right) == Ok::<i64, Error>(0),
    ensures
        eval(Expr::Binary(Box::new(left), BinaryOp::Div, Box::new(right))) == Err::<i64, Error>(
            Error::DivisionByZero,
        ),
{
}

/// An exponentiation whose exponent evaluates to a negative number fails,
/// whatever the base evaluates to.
pub proof fn lemma_negative_exponent(left: Expr, right: Expr, exponent: i64)
    requires
        eval(left) is Ok,
        eval(right) == Ok::<i64, Error>(exponent),
        exponent < 0,
    ensures
        eval(Expr::Binary(Box::new(left), BinaryOp::Pow, Box::new(right))) == Err::<i64, Error>(
            Error::NegativeExponent,
        ),
{
}

/// Interpreting one tree twice gives one outcome: any two results that
/// `interpret` may hand out for a tree are equal.
pub proof fn lemma_interpret_twice(
    expr: Expr,
    first: Result<i64, Error>,
    second: Result<i64, Error>,
)
    requires
        first == eval(expr),
        second == eval(expr),
    ensures
        first == second,
{
}

/// The quotient is the dividend's share of the divisor, rounded toward
/// zero: what is left over is smaller than the divisor and has the sign of
/// the dividend.
pub proof fn lemma_quotient_rounds_toward_zero(a: int, b: int)
    requires
        b != 0,
    ensures
        magnitude(a - quotient(a, b) * b) < magnitude(b),
        a >= 0 ==> a - quotient(a, b) * b >= 0,
        a <= 0 ==> a - quotient(a, b) * b <= 0,
{
    let ma = magnitude(a);
    let mb = magnitude(b);
    let q = ma / mb;
    vstd::arithmetic::div_mod::lemma_fundamental_div_mod(ma, mb);
    vstd::arithmetic::div_mod::lemma_mod_bound(ma, mb);
    assert(ma == mb * q + ma % mb);
    assert(quotient(a, b) * b == if a >= 0 { mb * q } else { -(mb * q) }) by (nonlinear_arith)
        requires
            ma == magnitude(a),
            mb == magnitude(b),
            b != 0,
            quotient(a, b) == if (a >= 0) == (b > 0) { q } else { -q },
    ;
}

} // verus!
