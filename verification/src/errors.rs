use vstd::prelude::*;

verus! {

/// Failure of the tokenizer: a byte outside the expression alphabet
/// (digits, `+ - * / ( )` and ASCII whitespace), with the byte itself
/// and its position in the input.
#[derive(Clone, Copy, Debug, PartialEq, Eq, Structural)]
pub enum TokenizeError {
    UnexpectedSymbol { symbol: u8, position: usize },
}

/// Failure of the infix-to-postfix converter.
#[derive(Clone, Copy, Debug, PartialEq, Eq, Structural)]
pub enum ConversionError {
    /// A `)` with no matching `(` on the operator stack, or a `(` still
    /// on the stack when the input is exhausted.
    UnmatchedParenthesis,
    /// A token that is neither a number, a parenthesis, nor one of the
    /// four known operators reached the converter.
    UnknownOperator { symbol: u8 },
}

/// Failure of the postfix structure validation.
#[derive(Clone, Copy, Debug, PartialEq, Eq, Structural)]
pub enum EvaluationError {
    /// A token classified as a number is not a non-empty run of digits.
    NumberFormat,
    /// An operator needed two operands but fewer were on the value stack.
    StackUnderflow,
    /// The value stack did not hold exactly one value at the end.
    MalformedExpression,
}

} // verus!
