//! The text of a sequence of tokens, and the proof that lexing it gives the
//! tokens back.

use vstd::prelude::*;
use vstd::string::StringExecFns;
use crate::lexer::{
    decimal, digit_value, digits_end, digits_value, is_digit, lemma_digits_value_exact,
    lemma_next_token_advances, lex_spec, next_token, skip_spaces, symbol, tokens_from, Token,
};

verus! {

/// The character that writes the digit `d`.
pub open spec fn digit_char(d: int) -> char {
    if d == 0 {
        '0'
    } else if d == 1 {
        '1'
    } else if d == 2 {
        '2'
    } else if d == 3 {
        '3'
    } else if d == 4 {
        '4'
    } else if d == 5 {
        '5'
    } else if d == 6 {
        '6'
    } else if d == 7 {
        '7'
    } else if d == 8 {
        '8'
    } else {
        '9'
    }
}

/// The digits that write `n` in base ten, without leading zeros.
pub open spec fn decimal_digits(n: nat) -> Seq<char>
    decreases n,
{
    if n < 10 {
        seq![digit_char(n as int)]
    } else {
        decimal_digits(n / 10).push(digit_char((n % 10) as int))
    }
}

/// The text of one token. A negative integer is written with a minus sign.
pub open spec fn token_text(t: Token) -> Seq<char> {
    match t {
        Token::LParen => seq!['('],
        Token::RParen => seq![')'],
        Token::Plus => seq!['+'],
        Token::Minus => seq!['-'],
        Token::Times => seq!['*'],
        Token::Divide => seq!['/'],
        Token::Pow => seq!['^'],
        Token::Integer(n) => if n >= 0 {
            decimal_digits(n as nat)
        } else {
            seq!['-'] + decimal_digits((-n) as nat)
        },
    }
}

/// The text of a sequence of tokens: each token, followed by one space.
pub open spec fn render_spec(ts: Seq<Token>) -> Seq<char>
    decreases ts.len(),
{
    if ts.len() == 0 {
        Seq::empty()
    } else {
        token_text(ts[0]) + seq![' '] + render_spec(ts.drop_first())
    }
}

/// No integer among the tokens is negative. The lexer yields such tokens
/// as long as no number wraps around.
pub open spec fn unsigned(ts: Seq<Token>) -> bool {
    forall|i: int| 0 <= i < ts.len() ==> (#[trigger] ts[i] matches Token::Integer(n) ==> n >= 0)
}

/// Skipping spaces in a text from a position on is skipping them in what
/// stands from that position on.
proof fn lemma_skip_spaces_suffix(s: Seq<char>, i: int, j: int)
    requires
        0 <= i,
        0 <= j,
        i + j <= s.len(),
    ensures
        skip_spaces(s, i + j) == i + skip_spaces(s.subrange(i, s.len() as int), j),
    decreases s.len() - i - j,
{
    if i + j < s.len() && s[i + j] == ' ' {
        lemma_skip_spaces_suffix(s, i, j + 1);
    }
}

/// A run of digits ends where it ends in what stands from a position on.
proof fn lemma_digits_end_suffix(s: Seq<char>, i: int, j: int)
    requires
        0 <= i,
        0 <= j,
        i + j <= s.len(),
    ensures
        digits_end(s, i + j) == i + digits_end(s.subrange(i, s.len() as int), j),
    decreases s.len() - i - j,
{
    if i + j < s.len() && is_digit(s[i + j]) {
        lemma_digits_end_suffix(s, i, j + 1);
    }
}

/// A run of digits has the value that it has in what stands from a
/// position on.
proof fn lemma_digits_value_suffix(s: Seq<char>, i: int, j: int, m: int)
    requires
        0 <= i,
        0 <= j <= m,
        i + m <= s.len(),
    ensures
        digits_value(s, i + j, i + m) == digits_value(s.subrange(i, s.len() as int), j, m),
    decreases m - j,
{
    if j < m {
        lemma_digits_value_suffix(s, i, j, m - 1);
    }
}

/// The tokens of a text from a position on are the tokens of what stands
/// from that position on.
pub proof fn lemma_tokens_from_suffix(s: Seq<char>, i: int, j: int)
    requires
        0 <= i,
        0 <= j,
        i + j <= s.len(),
    ensures
        tokens_from(s, i + j) == tokens_from(s.subrange(i, s.len() as int), j),
    decreases s.len() - i - j,
{
    let tail = s.subrange(i, s.len() as int);
    lemma_skip_spaces_suffix(s, i, j);
    crate::lexer::lemma_skip_spaces(s, i + j);
    let k = skip_spaces(tail, j);
    lemma_digits_end_suffix(s, i, k);
    crate::lexer::lemma_digits_end(s, i + k);
    lemma_digits_value_suffix(s, i, k, digits_end(tail, k));
    lemma_next_token_advances(s, i + j);
    match next_token(tail, j) {
        Some((t, e)) => {
            assert(next_token(s, i + j) == Some((t, i + e)));
            lemma_tokens_from_suffix(s, i, e);
        },
        None => {
            assert(next_token(s, i + j) is None);
        },
    }
}

/// A text that starts with the digits of `n` holds digits there, and their
/// decimal value is `n`.
proof fn lemma_decimal_digits(n: nat, s: Seq<char>)
    requires
        decimal_digits(n).len() <= s.len(),
        forall|k: int| 0 <= k < decimal_digits(n).len() ==> s[k] == decimal_digits(n)[k],
    ensures
        decimal_digits(n).len() >= 1,
        forall|k: int| 0 <= k < decimal_digits(n).len() ==> is_digit(s[k]),
        decimal(s, 0, decimal_digits(n).len() as int) == n,
    decreases n,
{
    let w = decimal_digits(n).len() as int;
    if n < 10 {
        assert(decimal(s, 0, 0) == 0);
        assert(s[0] == digit_char(n as int));
    } else {
        let shorter = decimal_digits(n / 10);
        assert(decimal_digits(n) == shorter.push(digit_char((n % 10) as int)));
        assert forall|k: int| 0 <= k < shorter.len() implies s[k] == shorter[k] by {
            assert(decimal_digits(n)[k] == shorter[k]);
        }
        lemma_decimal_digits(n / 10, s);
        assert(s[w - 1] == decimal_digits(n)[w - 1]);
        assert(digit_value(s[w - 1]) == n % 10);
        assert(decimal(s, 0, w) == decimal(s, 0, w - 1) * 10 + digit_value(s[w - 1]));
    }
}

/// A run of digits ends at the first character that is no digit.
proof fn lemma_digits_end_at(s: Seq<char>, i: int, w: int)
    requires
        0 <= i <= w < s.len(),
        forall|k: int| i <= k < w ==> is_digit(s[k]),
        !is_digit(s[w]),
    ensures
        digits_end(s, i) == w,
    decreases w - i,
{
    if i < w {
        lemma_digits_end_at(s, i + 1, w);
    }
}

/// The text of a token that is no negative integer, with a space behind it,
/// lexes to that token.
proof fn lemma_first_token(t: Token, rest: Seq<char>)
    requires
        t matches Token::Integer(n) ==> n >= 0,
    ensures
        token_text(t).len() >= 1,
        next_token(token_text(t) + seq![' '] + rest, 0) == Some(
            (t, token_text(t).len() as int),
        ),
{
    let s = token_text(t) + seq![' '] + rest;
    let w = token_text(t).len() as int;
    match t {
        Token::Integer(n) => {
            let digits = decimal_digits(n as nat);
            assert forall|k: int| 0 <= k < digits.len() implies s[k] == digits[k] by {}
            lemma_decimal_digits(n as nat, s);
            assert(s[w] == ' ');
            lemma_digits_end_at(s, 0, w);
            lemma_digits_value_exact(s, 0, w);
            assert(s[0] != ' ');
            assert(skip_spaces(s, 0) == 0);
            assert(symbol(s[0]) is None);
        },
        _ => {
            assert(s[0] == token_text(t)[0]);
            assert(skip_spaces(s, 0) == 0);
        },
    }
}

/// Lexing the text of a sequence of tokens gives the sequence back, provided
/// that it holds no negative integer. (A negative integer is written with a
/// minus sign, which lexes as a token of its own.)
pub proof fn lemma_lex_render(ts: Seq<Token>)
    requires
        unsigned(ts),
    ensures
        lex_spec(render_spec(ts)) == ts,
    decreases ts.len(),
{
    let s = render_spec(ts);
    if ts.len() == 0 {
        assert(s.len() == 0);
        assert(skip_spaces(s, 0) == 0);
        assert(next_token(s, 0) is None);
        assert(tokens_from(s, 0) =~= ts);
    } else {
        let t = ts[0];
        let rest = ts.drop_first();
        let tail = render_spec(rest);
        let w = token_text(t).len() as int;
        assert(unsigned(rest)) by {
            assert forall|i: int| 0 <= i < rest.len() implies (#[trigger] rest[i] matches Token::Integer(
                n,
            ) ==> n >= 0) by {
                assert(rest[i] == ts[i + 1]);
            }
        }
        lemma_lex_render(rest);
        lemma_first_token(t, tail);
        assert(s == token_text(t) + seq![' '] + tail);
        assert(s.len() == w + 1 + tail.len());
        assert(tokens_from(s, 0) == seq![t] + tokens_from(s, w));
        // the space behind the token is skipped
        assert(s[w] == ' ');
        assert(skip_spaces(s, w) == skip_spaces(s, w + 1));
        lemma_next_token_advances(s, w + 1);
        assert(tokens_from(s, w) == tokens_from(s, w + 1));
        lemma_tokens_from_suffix(s, w + 1, 0);
        assert(s.subrange(w + 1, s.len() as int) =~= tail);
        assert(seq![t] + rest =~= ts);
    }
}

/// The text of one digit.
fn digit_text(d: u64) -> (r: &'static str)
    requires
        d < 10,
    ensures
        r@ == seq![digit_char(d as int)],
{
    proof {
        reveal_strlit("0");
        reveal_strlit("1");
        reveal_strlit("2");
        reveal_strlit("3");
        reveal_strlit("4");
        reveal_strlit("5");
        reveal_strlit("6");
        reveal_strlit("7");
        reveal_strlit("8");
        reveal_strlit("9");
    }
    let r = if d == 0 {
        "0"
    } else if d == 1 {
        "1"
    } else if d == 2 {
        "2"
    } else if d == 3 {
        "3"
    } else if d == 4 {
        "4"
    } else if d == 5 {
        "5"
    } else if d == 6 {
        "6"
    } else if d == 7 {
        "7"
    } else if d == 8 {
        "8"
    } else {
        "9"
    };
    assert(r@ =~= seq![digit_char(d as int)]);
    r
}

/// Appends the digits of `m` to `out`.
fn push_decimal(out: &mut String, m: u64)
    ensures
        final(out)@ == old(out)@ + decimal_digits(m as nat),
    decreases m,
{
    if m >= 10 {
        push_decimal(out, m / 10);
    }
    out.append(digit_text(m % 10));
    assert(out@ =~= old(out)@ + decimal_digits(m as nat));
}

/// The text of a token that is no integer.
fn symbol_text(t: Token) -> (r: &'static str)
    requires
        !(t is Integer),
    ensures
        r@ == token_text(t),
{
    proof {
        reveal_strlit("(");
        reveal_strlit(")");
        reveal_strlit("+");
        reveal_strlit("-");
        reveal_strlit("*");
        reveal_strlit("/");
        reveal_strlit("^");
    }
    let r = match t {
        Token::LParen => "(",
        Token::RParen => ")",
        Token::Plus => "+",
        Token::Minus => "-",
        Token::Times => "*",
        Token::Divide => "/",
        _ => "^",
    };
    assert(r@ =~= token_text(t));
    r
}

/// Appends the text of `t` to `out`.
fn push_token(out: &mut String, t: Token)
    ensures
        final(out)@ == old(out)@ + token_text(t),
{
    match t {
        Token::Integer(n) => {
            if n >= 0 {
                push_decimal(out, n as u64);
            } else {
                out.append(symbol_text(Token::Minus));
                push_decimal(out, (-(n as i128)) as u64);
                assert(out@ =~= old(out)@ + token_text(t));
            }
        },
        _ => {
            out.append(symbol_text(t));
        },
    }
}

/// Writes a sequence of tokens as text: each token, followed by one space.
pub fn render(tokens: &Vec<Token>) -> (text: String)
    ensures
        text@ == render_spec(tokens@),
{
    let mut out = String::new();
    let mut i: usize = 0;
    assert(tokens@.subrange(0, tokens@.len() as int) =~= tokens@);
    assert(out@ + render_spec(tokens@) =~= render_spec(tokens@));
    while i < tokens.len()
        invariant
            i <= tokens.len(),
            render_spec(tokens@) == out@ + render_spec(
                tokens@.subrange(i as int, tokens@.len() as int),
            ),
        decreases tokens.len() - i,
    {
        let ghost before = out@;
        let ghost remaining = tokens@.subrange(i as int, tokens@.len() as int);
        push_token(&mut out, tokens[i]);
        out.append(" ");
        proof {
            reveal_strlit(" ");
            assert(" "@ =~= seq![' ']);
            assert(remaining[0] == tokens@[i as int]);
            assert(remaining.drop_first() =~= tokens@.subrange(i + 1, tokens@.len() as int));
            assert(out@ + render_spec(remaining.drop_first()) =~= before + render_spec(remaining));
        }
        i = i + 1;
    }
    assert(render_spec(tokens@.subrange(i as int, tokens@.len() as int)) =~= Seq::<char>::empty());
    assert(out@ + Seq::<char>::empty() =~= out@);
    out
}

} // verus!
