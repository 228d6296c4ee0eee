//! The failures of parsing and evaluation.

use vstd::prelude::*;

verus! {

/// Every way in which parsing or evaluating an expression can fail.
#[derive(Debug, PartialEq, Eq, Structural, Clone, Copy)]
pub enum Error {
    /// An opening parenthesis was not matched by a closing one.
    UnbalancedParens,
    /// A token stands where an expression must start, and cannot start one.
    ExpectingLiteral,
    /// A token stands where an infix operator must stand, and is none.
    ExpectingOperator,
    /// The tokens ended while a term or an operator was still required.
    IncompleteInput,
    /// A complete expression was read, and tokens remain after it.
    TrailingInput,
    /// The right operand of a division is zero.
    DivisionByZero,
    /// The right operand of an exponentiation is negative.
    NegativeExponent,
    /// A value of the evaluation does not fit in 64 signed bits.
    Overflow,
}

impl Error {
    /// The text shown to a person for this error.
    pub open spec fn message_spec(self) -> Seq<char> {
        match self {
            Error::UnbalancedParens => "unbalanced parens"@,
            Error::ExpectingLiteral => "expecting literal"@,
            Error::ExpectingOperator => "expecting operator"@,
            Error::IncompleteInput => "incomplete"@,
            Error::TrailingInput => "input has not fully been consumed"@,
            Error::DivisionByZero => "cannot divide by zero"@,
            Error::NegativeExponent => "cannot raise number to negative power"@,
            Error::Overflow => "integer overflow"@,
        }
    }

    /// Renders the error as one line of text.
    pub fn message(&self) -> (s: String)
        ensures
            s@ == self.message_spec(),
    {
        match self {
            Error::UnbalancedParens => "unbalanced parens".to_owned(),
            Error::ExpectingLiteral => "expecting literal".to_owned(),
            Error::ExpectingOperator => "expecting operator".to_owned(),
            Error::IncompleteInput => "incomplete".to_owned(),
            Error::TrailingInput => "input has not fully been consumed".to_owned(),
            Error::DivisionByZero => "cannot divide by zero".to_owned(),
            Error::NegativeExponent => "cannot raise number to negative power".to_owned(),
            Error::Overflow => "integer overflow".to_owned(),
        }
    }
}

} // verus!
