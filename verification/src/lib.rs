//! Arithmetic expression pipeline: tokenizer, infix-to-postfix conversion
//! (shunting-yard), and postfix structure validation.
//!
//! An expression is a line of ASCII text made of non-negative integer
//! literals, the four binary operators `+ - * /`, parentheses and
//! whitespace. Each stage is a pure function of its input: the tokenizer
//! turns bytes into byte-string tokens, the converter reorders them into
//! reverse-Polish (postfix) order, and the validator checks that a postfix
//! sequence evaluates with a value stack to exactly one result. The
//! floating-point arithmetic itself is left to the caller of the library,
//! which walks a validated postfix sequence with a value stack.

use vstd::prelude::*;

pub mod errors;
pub mod eval;
pub mod laws;
pub mod postfix;
pub mod token;
pub mod tokenize;

use crate::errors::ConversionError;
use crate::errors::EvaluationError;
use crate::eval::spec_rpn_scan;
use crate::eval::spec_validate;
use crate::laws::is_valid_infix;
use crate::laws::lemma_valid_infix_converts;
use crate::postfix::spec_shunt;
use crate::postfix::spec_to_postfix;
use crate::token::is_digit_byte;
use crate::token::is_expression_byte;
use crate::token::is_number_token;
use crate::tokenize::lemma_spec_tokens_wf;
use crate::tokenize::spec_tokens;

verus! {

/// The first two stages of the pipeline as one spec function: the
/// tokens of `s`, converted to postfix order.
pub open spec fn spec_pipeline_postfix(s: Seq<u8>) -> Result<Seq<Seq<u8>>, ConversionError> {
    spec_to_postfix(spec_tokens(s, Seq::<u8>::empty()))
}

/// Law: the pipeline is deterministic. Each stage's contract pins its
/// result to a spec function of its input alone, so running the
/// pipeline twice on the same input gives the same tokens, the same
/// postfix sequence and the same validation outcome — or the same
/// error.
pub proof fn lemma_pipeline_deterministic(a: Seq<u8>, b: Seq<u8>)
    requires
        a == b,
    ensures
        spec_tokens(a, Seq::<u8>::empty()) == spec_tokens(b, Seq::<u8>::empty()),
        spec_pipeline_postfix(a) == spec_pipeline_postfix(b),
        (match spec_pipeline_postfix(a) {
            Ok(p) => match spec_pipeline_postfix(b) {
                Ok(q) => spec_validate(p) == spec_validate(q),
                Err(_) => false,
            },
            Err(_) => true,
        }),
{
}

/// Law: a single number is its own postfix form — the conversion never
/// touches the operator stack — and it is a well-formed postfix
/// sequence, evaluating to the one value it carries.
pub proof fn lemma_single_number_postfix(t: Seq<u8>)
    requires
        is_number_token(t),
    ensures
        spec_to_postfix(seq![t]) == Ok::<Seq<Seq<u8>>, ConversionError>(seq![t]),
        spec_validate(seq![t]) == Ok::<(), EvaluationError>(()),
{
    let toks = seq![t];
    assert(toks[0] == t);
    assert(is_digit_byte(t[0]));
    assert(toks.skip(1) =~= Seq::<Seq<u8>>::empty());
    assert(Seq::<Seq<u8>>::empty().push(t) =~= seq![t]);
    assert(spec_shunt(Seq::<Seq<u8>>::empty(), Seq::<Seq<u8>>::empty(), seq![t]) == Ok::<
        Seq<Seq<u8>>,
        ConversionError,
    >(seq![t]));
    assert(spec_to_postfix(toks) == Ok::<Seq<Seq<u8>>, ConversionError>(seq![t]));
    assert(spec_rpn_scan(Seq::<Seq<u8>>::empty(), 1) == Ok::<nat, EvaluationError>(1));
    assert(spec_rpn_scan(toks, 0) == Ok::<nat, EvaluationError>(1));
}

/// Law: the whole pipeline succeeds on every valid input. An input made
/// only of expression bytes tokenizes without error; where its tokens
/// form a syntactically valid infix expression, the conversion succeeds
/// too, and the postfix sequence evaluates with a value stack to
/// exactly one result.
pub proof fn lemma_valid_expression_pipeline(s: Seq<u8>)
    requires
        forall|j: int| 0 <= j < s.len() ==> is_expression_byte(s[j]),
        is_valid_infix(spec_tokens(s, Seq::<u8>::empty())),
    ensures
        spec_pipeline_postfix(s) is Ok,
        spec_pipeline_postfix(s) matches Ok(postfix) ==> spec_validate(postfix) == Ok::<
            (),
            EvaluationError,
        >(()),
{
    lemma_spec_tokens_wf(s, Seq::<u8>::empty());
    lemma_valid_infix_converts(spec_tokens(s, Seq::<u8>::empty()));
}

} // verus!
