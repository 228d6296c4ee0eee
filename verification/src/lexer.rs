//! The lexer: turns a text into tokens in a single forward pass. It stops
//! without an error in front of a character that it does not know, and a
//! number too large for 64 signed bits wraps around.

use vstd::prelude::*;
use vstd::string::StrSliceExecFns;
use vstd::wrapping::i64_specs;

verus! {

/// One lexical unit of an arithmetic expression.
#[derive(Debug, PartialEq, Eq, Structural, Clone, Copy)]
pub enum Token {
    LParen,
    RParen,
    Plus,
    Minus,
    Times,
    Divide,
    Pow,
    Integer(i64),
}

/// Whether `c` is an ASCII decimal digit.
pub open spec fn is_digit(c: char) -> bool {
    '0' <= c && c <= '9'
}

/// The number that the digit `c` stands for.
pub open spec fn digit_value(c: char) -> i64
    recommends
        is_digit(c),
{
    (c as int - '0' as int) as i64
}

/// The token that a single character makes by itself, if it makes one.
pub open spec fn symbol(c: char) -> Option<Token> {
    if c == '(' {
        Some(Token::LParen)
    } else if c == ')' {
        Some(Token::RParen)
    } else if c == '*' {
        Some(Token::Times)
    } else if c == '/' {
        Some(Token::Divide)
    } else if c == '+' {
        Some(Token::Plus)
    } else if c == '-' {
        Some(Token::Minus)
    } else if c == '^' {
        Some(Token::Pow)
    } else {
        None
    }
}

/// The characters that the lexer knows: the space, the digits, and the
/// characters that are tokens by themselves.
pub open spec fn in_alphabet(c: char) -> bool {
    c == ' ' || is_digit(c) || symbol(c) is Some
}

/// The first position from `i` on that holds no space.
pub open spec fn skip_spaces(s: Seq<char>, i: int) -> int
    decreases s.len() - i,
{
    if 0 <= i < s.len() && s[i] == ' ' {
        skip_spaces(s, i + 1)
    } else {
        i
    }
}

/// The first position from `i` on that holds no digit.
pub open spec fn digits_end(s: Seq<char>, i: int) -> int
    decreases s.len() - i,
{
    if 0 <= i < s.len() && is_digit(s[i]) {
        digits_end(s, i + 1)
    } else {
        i
    }
}

/// One step of reading a number: the value so far takes one more digit.
/// The arithmetic wraps around in 64 signed bits.
pub open spec fn accumulate(v: i64, d: i64) -> i64 {
    i64_specs::wrapping_add(i64_specs::wrapping_mul(v, 10), d)
}

/// The number read from the digits `s[i..j]`, first digit first.
pub open spec fn digits_value(s: Seq<char>, i: int, j: int) -> i64
    decreases j - i,
{
    if 0 <= i < j <= s.len() {
        accumulate(digits_value(s, i, j - 1), digit_value(s[j - 1]))
    } else {
        0
    }
}

/// The number that the digits `s[i..j]` write in base ten.
pub open spec fn decimal(s: Seq<char>, i: int, j: int) -> int
    decreases j - i,
{
    if 0 <= i < j <= s.len() {
        decimal(s, i, j - 1) * 10 + digit_value(s[j - 1])
    } else {
        0
    }
}

/// The token that starts at or after position `i`, with the position that
/// follows it. There is none at the end of the text and before a character
/// outside the alphabet.
pub open spec fn next_token(s: Seq<char>, i: int) -> Option<(Token, int)> {
    let k = skip_spaces(s, i);
    if !(0 <= k < s.len()) {
        None
    } else if symbol(s[k]) is Some {
        Some((symbol(s[k])->0, k + 1))
    } else if is_digit(s[k]) {
        Some((Token::Integer(digits_value(s, k, digits_end(s, k))), digits_end(s, k)))
    } else {
        None
    }
}

/// The tokens of `s` from position `i` on.
pub open spec fn tokens_from(s: Seq<char>, i: int) -> Seq<Token>
    decreases s.len() - i,
{
    match next_token(s, i) {
        Some((t, j)) => if i < j <= s.len() {
            seq![t] + tokens_from(s, j)
        } else {
            seq![t]
        },
        None => Seq::empty(),
    }
}

/// The tokens of the text `s`.
pub open spec fn lex_spec(s: Seq<char>) -> Seq<Token> {
    tokens_from(s, 0)
}

/// The position at which lexing `s` from `i` on comes to a halt.
pub open spec fn halt_position(s: Seq<char>, i: int) -> int
    decreases s.len() - i,
{
    match next_token(s, i) {
        Some((t, j)) => if i < j <= s.len() {
            halt_position(s, j)
        } else {
            j
        },
        None => skip_spaces(s, i),
    }
}

/// Skipping spaces moves forward, stays inside the text, and stops at a
/// character that is no space.
pub proof fn lemma_skip_spaces(s: Seq<char>, i: int)
    requires
        0 <= i <= s.len(),
    ensures
        i <= skip_spaces(s, i) <= s.len(),
        skip_spaces(s, i) < s.len() ==> s[skip_spaces(s, i)] != ' ',
        forall|m: int| i <= m < skip_spaces(s, i) ==> s[m] == ' ',
    decreases s.len() - i,
{
    if i < s.len() && s[i] == ' ' {
        lemma_skip_spaces(s, i + 1);
    }
}

/// A run of digits ends inside the text, at a character that is no digit.
pub proof fn lemma_digits_end(s: Seq<char>, i: int)
    requires
        0 <= i <= s.len(),
    ensures
        i <= digits_end(s, i) <= s.len(),
        i < s.len() && is_digit(s[i]) ==> i < digits_end(s, i),
        digits_end(s, i) < s.len() ==> !is_digit(s[digits_end(s, i)]),
        forall|m: int| i <= m < digits_end(s, i) ==> is_digit(s[m]),
    decreases s.len() - i,
{
    if i < s.len() && is_digit(s[i]) {
        lemma_digits_end(s, i + 1);
    }
}

/// Every token takes at least one character and ends inside the text.
pub proof fn lemma_next_token_advances(s: Seq<char>, i: int)
    requires
        0 <= i <= s.len(),
    ensures
        match next_token(s, i) {
            Some((t, j)) => i < j <= s.len(),
            None => true,
        },
{
    lemma_skip_spaces(s, i);
    lemma_digits_end(s, skip_spaces(s, i));
}

/// A number whose decimal value fits in 64 signed bits is read exactly: no
/// wrapping takes place.
pub proof fn lemma_digits_value_exact(s: Seq<char>, i: int, j: int)
    requires
        0 <= i <= j <= s.len(),
        forall|m: int| i <= m < j ==> is_digit(s[m]),
        decimal(s, i, j) <= i64::MAX,
    ensures
        digits_value(s, i, j) == decimal(s, i, j),
        0 <= decimal(s, i, j),
    decreases j - i,
{
    if i < j {
        lemma_decimal_nonnegative(s, i, j - 1);
        lemma_digits_value_exact(s, i, j - 1);
    }
}

/// The decimal value of a run of digits is not negative.
pub proof fn lemma_decimal_nonnegative(s: Seq<char>, i: int, j: int)
    requires
        0 <= i <= j <= s.len(),
        forall|m: int| i <= m < j ==> is_digit(s[m]),
    ensures
        0 <= decimal(s, i, j),
    decreases j - i,
{
    if i < j {
        lemma_decimal_nonnegative(s, i, j - 1);
    }
}

/// Lexing is total over the alphabet: it halts inside the text only in front
/// of a character outside the alphabet, and so consumes a text of spaces,
/// digits, operators and parentheses to its end.
pub proof fn lemma_lex_total(s: Seq<char>, i: int)
    requires
        0 <= i <= s.len(),
    ensures
        i <= halt_position(s, i) <= s.len(),
        halt_position(s, i) < s.len() ==> !in_alphabet(s[halt_position(s, i)]),
        (forall|m: int| i <= m < s.len() ==> in_alphabet(s[m])) ==> halt_position(s, i) == s.len(),
    decreases s.len() - i,
{
    lemma_skip_spaces(s, i);
    lemma_next_token_advances(s, i);
    match next_token(s, i) {
        Some((t, j)) => {
            lemma_lex_total(s, j);
        },
        None => {},
    }
}

/// Where the lexer has come to a halt it stays: from the position at which
/// no token was found, none is found again.
pub proof fn lemma_halt_is_final(s: Seq<char>, i: int)
    requires
        0 <= i <= s.len(),
        next_token(s, i) is None,
    ensures
        next_token(s, skip_spaces(s, i)) is None,
        skip_spaces(s, skip_spaces(s, i)) == skip_spaces(s, i),
{
    lemma_skip_spaces(s, i);
}

/// Skipping spaces does not look behind a character that is no space.
proof fn lemma_skip_spaces_cut(s: Seq<char>, k: int, i: int)
    requires
        0 <= i <= k < s.len(),
        s[k] != ' ',
    ensures
        skip_spaces(s, i) <= k,
        skip_spaces(s.take(k), i) == skip_spaces(s, i),
    decreases k - i,
{
    if i < k && s[i] == ' ' {
        lemma_skip_spaces_cut(s, k, i + 1);
    }
}

/// A run of digits does not reach behind a character that is no digit.
proof fn lemma_digits_end_cut(s: Seq<char>, k: int, i: int)
    requires
        0 <= i <= k < s.len(),
        !is_digit(s[k]),
    ensures
        digits_end(s, i) <= k,
        digits_end(s.take(k), i) == digits_end(s, i),
    decreases k - i,
{
    if i < k && is_digit(s[i]) {
        lemma_digits_end_cut(s, k, i + 1);
    }
}

/// The value of a run of digits depends on these digits alone.
proof fn lemma_digits_value_cut(s: Seq<char>, k: int, i: int, j: int)
    requires
        0 <= i <= j <= k <= s.len(),
    ensures
        digits_value(s.take(k), i, j) == digits_value(s, i, j),
    decreases j - i,
{
    if i < j {
        lemma_digits_value_cut(s, k, i, j - 1);
    }
}

/// The tokens in front of a character outside the alphabet do not depend
/// on what stands behind it.
proof fn lemma_tokens_from_cut(s: Seq<char>, k: int, i: int)
    requires
        0 <= i <= k < s.len(),
        !in_alphabet(s[k]),
    ensures
        tokens_from(s.take(k), i) == tokens_from(s, i),
    decreases k - i,
{
    lemma_skip_spaces_cut(s, k, i);
    lemma_skip_spaces(s, i);
    let q = skip_spaces(s, i);
    if q < k {
        lemma_digits_end_cut(s, k, q);
        lemma_digits_end(s, q);
        lemma_digits_value_cut(s, k, q, digits_end(s, q));
        match next_token(s, i) {
            Some((t, j)) => {
                assert(next_token(s.take(k), i) == Some((t, j)));
                lemma_tokens_from_cut(s, k, j);
            },
            None => {
                assert(next_token(s.take(k), i) is None);
            },
        }
    } else {
        assert(next_token(s, i) is None);
        assert(next_token(s.take(k), i) is None);
    }
}

/// What stands behind a character outside the alphabet yields no token:
/// the tokens of the text are those of the text in front of that character.
pub proof fn lemma_lex_stops_at_unknown(s: Seq<char>, k: int)
    requires
        0 <= k < s.len(),
        !in_alphabet(s[k]),
    ensures
        lex_spec(s) == lex_spec(s.take(k)),
{
    lemma_tokens_from_cut(s, k, 0);
}

/// A single forward pass over a text that hands out its tokens one by one.
pub struct Lexer<'a> {
    input: &'a str,
    len: usize,
    pos: usize,
}

impl<'a> Lexer<'a> {
    /// The text that is being read.
    pub closed spec fn text(&self) -> Seq<char> {
        self.input@
    }

    /// The number of characters that have been read.
    pub closed spec fn position(&self) -> int {
        self.pos as int
    }

    /// The position lies inside the text.
    pub closed spec fn wf(&self) -> bool {
        &&& self.len == self.input@.len()
        &&& self.pos <= self.len
    }

    /// A lexer at the start of `input`.
    pub fn new(input: &'a String) -> (lexer: Lexer<'a>)
        ensures
            lexer.wf(),
            lexer.text() == input@,
            lexer.position() == 0,
    {
        let text = input.as_str();
        Lexer { input: text, len: text.unicode_len(), pos: 0 }
    }

    /// Steps over one character and hands out the token that it made.
    fn advance(&mut self, t: Token) -> (r: Option<Token>)
        requires
            old(self).wf(),
            old(self).pos < old(self).len,
        ensures
            final(self).wf(),
            final(self).input == old(self).input,
            final(self).pos == old(self).pos + 1,
            r == Some(t),
    {
        self.pos = self.pos + 1;
        Some(t)
    }

    /// Reads the next token. Returns `None`, for good, at the end of the text
    /// and in front of a character outside the alphabet.
    pub fn next(&mut self) -> (r: Option<Token>)
        requires
            old(self).wf(),
        ensures
            final(self).wf(),
            final(self).text() == old(self).text(),
            old(self).position() <= final(self).position() <= old(self).text().len(),
            match next_token(old(self).text(), old(self).position()) {
                Some((t, j)) => r == Some(t) && final(self).position() == j
                    && old(self).position() < j,
                None => r is None && final(self).position() == skip_spaces(
                    old(self).text(),
                    old(self).position(),
                ),
            },
    {
        let ghost s = self.input@;
        let ghost start = self.pos as int;
        let mut scanning: bool = true;
        while scanning
            invariant
                self.wf(),
                self.input@ == s,
                start <= self.pos,
                skip_spaces(s, start) == skip_spaces(s, self.pos as int),
                !scanning ==> self.pos as int == skip_spaces(s, start),
            decreases self.len - self.pos, if scanning { 1int } else { 0int },
        {
            if self.pos < self.len && self.input.get_char(self.pos) == ' ' {
                self.pos = self.pos + 1;
            } else {
                scanning = false;
            }
        }
        if self.pos >= self.len {
            return None;
        }
        let c = self.input.get_char(self.pos);
        if c == '(' {
            self.advance(Token::LParen)
        } else if c == ')' {
            self.advance(Token::RParen)
        } else if c == '*' {
            self.advance(Token::Times)
        } else if c == '/' {
            self.advance(Token::Divide)
        } else if c == '+' {
            self.advance(Token::Plus)
        } else if c == '-' {
            self.advance(Token::Minus)
        } else if c == '^' {
            self.advance(Token::Pow)
        } else if '0' <= c && c <= '9' {
            let ghost first = self.pos as int;
            let mut number: i64 = 0;
            let mut reading: bool = true;
            while reading
                invariant
                    self.wf(),
                    self.input@ == s,
                    0 <= first <= self.pos,
                    first < self.len,
                    is_digit(s[first]),
                    first < self.pos || reading,
                    digits_end(s, first) == digits_end(s, self.pos as int),
                    number == digits_value(s, first, self.pos as int),
                    !reading ==> self.pos as int == digits_end(s, first),
                decreases self.len - self.pos, if reading { 1int } else { 0int },
            {
                if self.pos < self.len {
                    let d = self.input.get_char(self.pos);
                    if '0' <= d && d <= '9' {
                        let digit: i64 = (d as u32 - '0' as u32) as i64;
                        number = number.wrapping_mul(10).wrapping_add(digit);
                        self.pos = self.pos + 1;
                    } else {
                        reading = false;
                    }
                } else {
                    reading = false;
                }
            }
            Some(Token::Integer(number))
        } else {
            None
        }
    }
}

/// Splits a text into its tokens. Lexing ends at the end of the text or in
/// front of the first character outside the alphabet, whichever comes first;
/// what follows such a character yields no token. A number too large for 64
/// signed bits wraps around.
pub fn lex(input: &String) -> (tokens: Vec<Token>)
    ensures
        tokens@ == lex_spec(input@),
{
    let mut lexer = Lexer::new(input);
    let mut tokens: Vec<Token> = Vec::new();
    let mut more: bool = true;
    while more
        invariant
            lexer.wf(),
            lexer.text() == input@,
            0 <= lexer.position() <= input@.len(),
            more ==> lex_spec(input@) == tokens@ + tokens_from(input@, lexer.position()),
            !more ==> lex_spec(input@) == tokens@,
        decreases input@.len() - lexer.position(), if more { 1int } else { 0int },
    {
        let ghost before = tokens@;
        let ghost from = lexer.position();
        match lexer.next() {
            Some(t) => {
                tokens.push(t);
                assert(tokens@ + tokens_from(input@, lexer.position()) =~= before + (seq![t]
                    + tokens_from(input@, lexer.position())));
            },
            None => {
                assert(before + Seq::<Token>::empty() =~= before);
                more = false;
            },
        }
    }
    tokens
}

} // verus!
