use vstd::prelude::*;

use crate::errors::ConversionError;
use crate::token::clone_token;
use crate::token::is_digit;
use crate::token::is_digit_byte;
use crate::token::is_operator;
use crate::token::is_operator_byte;
use crate::token::lemma_token_views_drop_last;
use crate::token::lemma_token_views_push;
use crate::token::priority;
use crate::token::spec_priority;
use crate::token::token_views;
use crate::token::LEFT_BRACE;
use crate::token::RIGHT_BRACE;

verus! {

/// One entry of the converter's operator stack: a `(` token or an
/// operator token, classified by its first byte.
pub open spec fn is_stack_entry(t: Seq<u8>) -> bool {
    t.len() > 0 && (t[0] == LEFT_BRACE || is_operator_byte(t[0]))
}

pub open spec fn all_stack_entries(ts: Seq<Seq<u8>>) -> bool {
    forall|j: int| 0 <= j < ts.len() ==> is_stack_entry(ts[j])
}

/// Some token on the operator stack is a `(`.
pub open spec fn has_left_brace(stack: Seq<Seq<u8>>) -> bool {
    exists|j: int| 0 <= j < stack.len() && stack[j][0] == LEFT_BRACE
}

/// Pop operators to the output until a `(` is popped and discarded;
/// `None` when the stack empties without one (an unmatched `)`).
pub open spec fn spec_pop_until_left(stack: Seq<Seq<u8>>, out: Seq<Seq<u8>>) -> Option<
    (Seq<Seq<u8>>, Seq<Seq<u8>>),
>
    decreases stack.len(),
{
    if stack.len() == 0 {
        None
    } else if stack.last()[0] == LEFT_BRACE {
        Some((stack.drop_last(), out))
    } else {
        spec_pop_until_left(stack.drop_last(), out.push(stack.last()))
    }
}

/// Pop operators of priority at least `p` to the output; stop at a `(`,
/// at an operator of lower priority, or at the bottom of the stack.
/// Popping on priority greater *or equal* makes equal-priority operators
/// left-associative.
pub open spec fn spec_pop_higher(stack: Seq<Seq<u8>>, out: Seq<Seq<u8>>, p: int) -> (
    Seq<Seq<u8>>,
    Seq<Seq<u8>>,
)
    decreases stack.len(),
{
    if stack.len() == 0 {
        (stack, out)
    } else if is_operator_byte(stack.last()[0]) && spec_priority(stack.last()[0]) >= p {
        spec_pop_higher(stack.drop_last(), out.push(stack.last()), p)
    } else {
        (stack, out)
    }
}

/// Drain the operator stack into the output at the end of the input.
/// A `(` still on the stack is an unmatched opening parenthesis.
pub open spec fn spec_drain(stack: Seq<Seq<u8>>, out: Seq<Seq<u8>>) -> Result<
    Seq<Seq<u8>>,
    ConversionError,
>
    decreases stack.len(),
{
    if stack.len() == 0 {
        Ok(out)
    } else if stack.last()[0] == LEFT_BRACE {
        Err(ConversionError::UnmatchedParenthesis)
    } else {
        spec_drain(stack.drop_last(), out.push(stack.last()))
    }
}

/// The final drain, read declaratively: it fails exactly when a `(` is
/// still on the stack, and otherwise appends the stack to the output in
/// pop (top-first) order.
pub proof fn lemma_spec_drain(stack: Seq<Seq<u8>>, out: Seq<Seq<u8>>)
    ensures
        has_left_brace(stack) ==> spec_drain(stack, out) == Err::<
            Seq<Seq<u8>>,
            ConversionError,
        >(ConversionError::UnmatchedParenthesis),
        !has_left_brace(stack) ==> spec_drain(stack, out) == Ok::<
            Seq<Seq<u8>>,
            ConversionError,
        >(out + stack.reverse()),
    decreases stack.len(),
{
    if stack.len() == 0 {
        assert(!has_left_brace(stack));
        assert(out + stack.reverse() =~= out);
    } else if stack.last()[0] == LEFT_BRACE {
        assert(stack[stack.len() - 1][0] == LEFT_BRACE);
        assert(has_left_brace(stack));
    } else {
        lemma_spec_drain(stack.drop_last(), out.push(stack.last()));
        if has_left_brace(stack.drop_last()) {
            let j = choose|j: int|
                0 <= j < stack.drop_last().len() && stack.drop_last()[j][0] == LEFT_BRACE;
            assert(stack[j][0] == LEFT_BRACE);
            assert(has_left_brace(stack));
        } else {
            if has_left_brace(stack) {
                let j = choose|j: int| 0 <= j < stack.len() && stack[j][0] == LEFT_BRACE;
                assert(j < stack.len() - 1);
                assert(stack.drop_last()[j][0] == LEFT_BRACE);
                assert(false);
            }
            assert(out.push(stack.last()) + stack.drop_last().reverse() =~= out
                + stack.reverse());
        }
    }
}

/// The search for a matching `(`, read declaratively: it fails exactly
/// when no `(` is on the stack — a `)` without a matching `(`.
pub proof fn lemma_spec_pop_until_none(stack: Seq<Seq<u8>>, out: Seq<Seq<u8>>)
    ensures
        spec_pop_until_left(stack, out) is None <==> !has_left_brace(stack),
    decreases stack.len(),
{
    if stack.len() == 0 {
    } else if stack.last()[0] == LEFT_BRACE {
        assert(stack[stack.len() - 1][0] == LEFT_BRACE);
        assert(has_left_brace(stack));
    } else {
        lemma_spec_pop_until_none(stack.drop_last(), out.push(stack.last()));
        if has_left_brace(stack.drop_last()) {
            let j = choose|j: int|
                0 <= j < stack.drop_last().len() && stack.drop_last()[j][0] == LEFT_BRACE;
            assert(stack[j][0] == LEFT_BRACE);
            assert(has_left_brace(stack));
        } else if has_left_brace(stack) {
            let j = choose|j: int| 0 <= j < stack.len() && stack[j][0] == LEFT_BRACE;
            assert(j < stack.len() - 1);
            assert(stack.drop_last()[j][0] == LEFT_BRACE);
            assert(false);
        }
    }
}

/// The shunting-yard loop over the remaining `tokens`, with the current
/// operator `stack` and output `out`. Tokens are classified by their
/// first byte; empty tokens are skipped.
pub open spec fn spec_shunt(
    tokens: Seq<Seq<u8>>,
    stack: Seq<Seq<u8>>,
    out: Seq<Seq<u8>>,
) -> Result<Seq<Seq<u8>>, ConversionError>
    decreases tokens.len(),
{
    if tokens.len() == 0 {
        spec_drain(stack, out)
    } else {
        let t = tokens[0];
        if t.len() == 0 {
            spec_shunt(tokens.skip(1), stack, out)
        } else if is_digit_byte(t[0]) {
            spec_shunt(tokens.skip(1), stack, out.push(t))
        } else if t[0] == LEFT_BRACE {
            spec_shunt(tokens.skip(1), stack.push(t), out)
        } else if t[0] == RIGHT_BRACE {
            match spec_pop_until_left(stack, out) {
                Option::None => Err(ConversionError::UnmatchedParenthesis),
                Option::Some(so) => spec_shunt(tokens.skip(1), so.0, so.1),
            }
        } else if is_operator_byte(t[0]) {
            let so = spec_pop_higher(stack, out, spec_priority(t[0]));
            spec_shunt(tokens.skip(1), so.0.push(t), so.1)
        } else {
            Err(ConversionError::UnknownOperator { symbol: t[0] })
        }
    }
}

/// What the converter returns on a whole token sequence: shunting-yard
/// from an empty operator stack and an empty output.
pub open spec fn spec_to_postfix(tokens: Seq<Seq<u8>>) -> Result<Seq<Seq<u8>>, ConversionError> {
    spec_shunt(tokens, Seq::empty(), Seq::empty())
}

/// Pop operators to the output until the matching `(` is found and
/// discarded; an error when the stack has no `(`.
#[verifier::loop_isolation(false)]
fn pop_until_left_brace(stack: &mut Vec<Vec<u8>>, out: &mut Vec<Vec<u8>>) -> (r: Result<
    (),
    ConversionError,
>)
    requires
        all_stack_entries(token_views(old(stack)@)),
    ensures
        all_stack_entries(token_views(final(stack)@)),
        match r {
            Ok(_) => spec_pop_until_left(token_views(old(stack)@), token_views(old(out)@))
                == Some((token_views(final(stack)@), token_views(final(out)@))),
            Err(e) => {
                &&& e == ConversionError::UnmatchedParenthesis
                &&& spec_pop_until_left(
                    token_views(old(stack)@),
                    token_views(old(out)@),
                ) is None
            },
        },
{
    while stack.len() != 0
        invariant
            all_stack_entries(token_views(stack@)),
            spec_pop_until_left(token_views(stack@), token_views(out@))
                == spec_pop_until_left(token_views(old(stack)@), token_views(old(out)@)),
        decreases stack.len(),
    {
        let ghost prev = stack@;
        proof {
            lemma_token_views_drop_last(prev);
            assert(is_stack_entry(token_views(prev)[prev.len() - 1]));
        }
        let top = stack.pop().unwrap();
        proof {
            assert(top@ == token_views(prev).last());
        }
        if top[0] == LEFT_BRACE {
            return Ok(());
        }
        proof {
            lemma_token_views_push(out@, top);
        }
        out.push(top);
    }
    Err(ConversionError::UnmatchedParenthesis)
}

/// Pop operators of priority at least `p` to the output, stopping at a
/// `(`, at a lower-priority operator, or at an empty stack.
fn pop_higher_priority(stack: &mut Vec<Vec<u8>>, out: &mut Vec<Vec<u8>>, p: u8)
    requires
        all_stack_entries(token_views(old(stack)@)),
    ensures
        all_stack_entries(token_views(final(stack)@)),
        (token_views(final(stack)@), token_views(final(out)@)) == spec_pop_higher(
            token_views(old(stack)@),
            token_views(old(out)@),
            p as int,
        ),
{
    let ghost s0 = token_views(stack@);
    let ghost o0 = token_views(out@);
    loop
        invariant_except_break
            all_stack_entries(token_views(stack@)),
            spec_pop_higher(token_views(stack@), token_views(out@), p as int)
                == spec_pop_higher(s0, o0, p as int),
        ensures
            all_stack_entries(token_views(stack@)),
            (token_views(stack@), token_views(out@)) == spec_pop_higher(s0, o0, p as int),
        decreases stack.len(),
    {
        if stack.len() == 0 {
            break;
        }
        proof {
            assert(is_stack_entry(token_views(stack@)[stack@.len() - 1]));
        }
        let top_first: u8 = stack[stack.len() - 1][0];
        proof {
            assert(top_first == token_views(stack@).last()[0]);
        }
        if !(is_operator(&top_first) && priority(&top_first) >= p) {
            break;
        }
        let ghost prev = stack@;
        proof {
            lemma_token_views_drop_last(prev);
        }
        let top = stack.pop().unwrap();
        proof {
            assert(top@ == token_views(prev).last());
            lemma_token_views_push(out@, top);
        }
        out.push(top);
    }
}

/// Convert an infix token sequence to postfix (reverse-Polish) order by
/// the shunting-yard algorithm.
///
/// The result is pinned to `spec_to_postfix` of the input views: numbers
/// go straight to the output; `(` is pushed; `)` pops operators to the
/// output until its `(`, or fails with `UnmatchedParenthesis`; an
/// operator first pops all operators of priority at least its own
/// (left-associativity), then is pushed; a token that is none of these
/// fails with `UnknownOperator`. At the end the stack drains to the
/// output, and a remaining `(` fails with `UnmatchedParenthesis`.
#[verifier::loop_isolation(false)]
pub fn reversed_polish_from_tokens_ascii(tokens_ascii: &Vec<Vec<u8>>) -> (r: Result<
    Vec<Vec<u8>>,
    ConversionError,
>)
    ensures
        match r {
            Ok(out) => spec_to_postfix(token_views(tokens_ascii@)) == Ok::<
                Seq<Seq<u8>>,
                ConversionError,
            >(token_views(out@)),
            Err(e) => spec_to_postfix(token_views(tokens_ascii@)) == Err::<
                Seq<Seq<u8>>,
                ConversionError,
            >(e),
        },
{
    let mut reversed_polish: Vec<Vec<u8>> = Vec::new();
    let mut stack: Vec<Vec<u8>> = Vec::new();
    let ghost full = token_views(tokens_ascii@);
    let n: usize = tokens_ascii.len();
    let mut idx: usize = 0;

    proof {
        assert(full.skip(0) =~= full);
        assert(token_views(stack@) =~= Seq::<Seq<u8>>::empty());
        assert(token_views(reversed_polish@) =~= Seq::<Seq<u8>>::empty());
    }

    while idx < n
        invariant
            idx <= n,
            all_stack_entries(token_views(stack@)),
            spec_shunt(
                full.skip(idx as int),
                token_views(stack@),
                token_views(reversed_polish@),
            ) == spec_to_postfix(full),
        decreases n - idx,
    {
        let token = &tokens_ascii[idx];
        proof {
            assert(full.skip(idx as int).skip(1) =~= full.skip(idx as int + 1));
            assert(full.skip(idx as int)[0] == full[idx as int]);
            assert(full[idx as int] == token@);
        }
        if token.len() == 0 {
            // an empty token carries nothing and is skipped
        } else {
            let first: u8 = token[0];
            if is_digit(&first) {
                let t = clone_token(token);
                proof {
                    lemma_token_views_push(reversed_polish@, t);
                }
                reversed_polish.push(t);
            } else if first == LEFT_BRACE {
                let t = clone_token(token);
                proof {
                    lemma_token_views_push(stack@, t);
                }
                stack.push(t);
            } else if first == RIGHT_BRACE {
                let ghost stack0 = token_views(stack@);
                let ghost out0 = token_views(reversed_polish@);
                match pop_until_left_brace(&mut stack, &mut reversed_polish) {
                    Ok(_) => {},
                    Err(e) => {
                        proof {
                            assert(spec_pop_until_left(stack0, out0) is None);
                        }
                        return Err(e);
                    },
                }
            } else if is_operator(&first) {
                let p: u8 = priority(&first);
                pop_higher_priority(&mut stack, &mut reversed_polish, p);
                let t = clone_token(token);
                proof {
                    lemma_token_views_push(stack@, t);
                }
                stack.push(t);
            } else {
                return Err(ConversionError::UnknownOperator { symbol: first });
            }
        }
        idx = idx + 1;
    }

    proof {
        assert(full.skip(n as int) =~= Seq::<Seq<u8>>::empty());
        assert(spec_drain(token_views(stack@), token_views(reversed_polish@))
            == spec_to_postfix(full));
    }

    while stack.len() != 0
        invariant
            all_stack_entries(token_views(stack@)),
            spec_drain(token_views(stack@), token_views(reversed_polish@)) == spec_to_postfix(
                full,
            ),
        decreases stack.len(),
    {
        let ghost prev = stack@;
        proof {
            lemma_token_views_drop_last(prev);
            assert(is_stack_entry(token_views(prev)[prev.len() - 1]));
        }
        let top = stack.pop().unwrap();
        proof {
            assert(top@ == token_views(prev).last());
        }
        if top[0] == LEFT_BRACE {
            return Err(ConversionError::UnmatchedParenthesis);
        }
        proof {
            lemma_token_views_push(reversed_polish@, top);
        }
        reversed_polish.push(top);
    }

    Ok(reversed_polish)
}

} // verus!
