use vstd::prelude::*;

use crate::errors::EvaluationError;
use crate::token::is_digit;
use crate::token::is_digit_byte;
use crate::token::is_number_token;
use crate::token::token_views;

verus! {

/// Walk a postfix sequence with the size of the value stack: a number
/// token pushes one value; any other token stands for a binary
/// operation, consumes two values and pushes one. An empty token, or a
/// token that starts with a digit but is not all digits, cannot be
/// parsed as a number; an operation with fewer than two values on the
/// stack underflows.
pub open spec fn spec_rpn_scan(tokens: Seq<Seq<u8>>, count: nat) -> Result<
    nat,
    EvaluationError,
>
    decreases tokens.len(),
{
    if tokens.len() == 0 {
        Ok(count)
    } else {
        let t = tokens[0];
        if t.len() == 0 {
            Err(EvaluationError::NumberFormat)
        } else if is_digit_byte(t[0]) {
            if is_number_token(t) {
                spec_rpn_scan(tokens.skip(1), count + 1)
            } else {
                Err(EvaluationError::NumberFormat)
            }
        } else {
            if count >= 2 {
                spec_rpn_scan(tokens.skip(1), (count - 1) as nat)
            } else {
                Err(EvaluationError::StackUnderflow)
            }
        }
    }
}

/// A postfix sequence is well formed exactly when the walk succeeds and
/// leaves exactly one value on the stack.
pub open spec fn spec_validate(tokens: Seq<Seq<u8>>) -> Result<(), EvaluationError> {
    match spec_rpn_scan(tokens, 0) {
        Ok(c) => if c == 1 {
            Ok(())
        } else {
            Err(EvaluationError::MalformedExpression)
        },
        Err(e) => Err(e),
    }
}

/// `t` is a non-empty run of decimal digits.
pub fn check_number_token(t: &Vec<u8>) -> (r: bool)
    ensures
        r == is_number_token(t@),
{
    if t.len() == 0 {
        return false;
    }
    let mut i: usize = 0;
    while i < t.len()
        invariant
            i <= t@.len(),
            forall|j: int| 0 <= j < i ==> is_digit_byte(t@[j]),
        decreases t.len() - i,
    {
        if !is_digit(&t[i]) {
            return false;
        }
        i = i + 1;
    }
    true
}

/// Check that a postfix token sequence evaluates with a value stack to
/// exactly one result.
///
/// Walking left to right, a number token pushes a value and any other
/// token pops two and pushes one. The walk fails with `NumberFormat` at
/// the first token that starts with a digit but is not a non-empty
/// digit run (or is empty), and with `StackUnderflow` at the first
/// operation that finds fewer than two values. A walk that ends with a
/// stack of any size other than one fails with `MalformedExpression`.
#[verifier::loop_isolation(false)]
pub fn validate_reversed_polish(reversed_polish_tokens: &Vec<Vec<u8>>) -> (r: Result<
    (),
    EvaluationError,
>)
    ensures
        r == spec_validate(token_views(reversed_polish_tokens@)),
{
    let ghost full = token_views(reversed_polish_tokens@);
    let n: usize = reversed_polish_tokens.len();
    let mut count: usize = 0;
    let mut i: usize = 0;

    proof {
        assert(full.skip(0) =~= full);
    }

    while i < n
        invariant
            i <= n,
            count <= i,
            spec_rpn_scan(full.skip(i as int), count as nat) == spec_rpn_scan(full, 0),
        decreases n - i,
    {
        let token = &reversed_polish_tokens[i];
        proof {
            assert(full.skip(i as int).skip(1) =~= full.skip(i as int + 1));
            assert(full.skip(i as int)[0] == full[i as int]);
            assert(full[i as int] == token@);
        }
        if token.len() == 0 {
            return Err(EvaluationError::NumberFormat);
        }
        let first: u8 = token[0];
        if is_digit(&first) {
            if !check_number_token(token) {
                return Err(EvaluationError::NumberFormat);
            }
            count = count + 1;
        } else {
            if count < 2 {
                return Err(EvaluationError::StackUnderflow);
            }
            count = count - 1;
        }
        i = i + 1;
    }

    if count == 1 {
        Ok(())
    } else {
        Err(EvaluationError::MalformedExpression)
    }
}

} // verus!
